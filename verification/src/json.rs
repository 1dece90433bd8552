//! Building blocks of the textual formats the store emits and reads back:
//! decimal rendering and parsing of integers, with the proof that parsing
//! inverts rendering.

use vstd::prelude::*;

verus! {

/// The decimal digit character for `d` (meaningful for `d < 10`).
pub open spec fn digit_char(d: nat) -> char
    recommends
        d < 10,
{
    if d == 0 {
        '0'
    } else if d == 1 {
        '1'
    } else if d == 2 {
        '2'
    } else if d == 3 {
        '3'
    } else if d == 4 {
        '4'
    } else if d == 5 {
        '5'
    } else if d == 6 {
        '6'
    } else if d == 7 {
        '7'
    } else if d == 8 {
        '8'
    } else {
        '9'
    }
}

/// The decimal rendering of `n`, most significant digit first, no sign and
/// no leading zero (a single `0` for zero).
pub open spec fn dec_digits(n: nat) -> Seq<char>
    decreases n,
{
    if n < 10 {
        seq![digit_char(n)]
    } else {
        dec_digits(n / 10).push(digit_char(n % 10))
    }
}

pub open spec fn is_digit(c: char) -> bool {
    48 <= c as u32 <= 57
}

pub open spec fn digit_val(c: char) -> nat
    recommends
        is_digit(c),
{
    (c as u32 - 48) as nat
}

/// The value of a digit string, most significant digit first.
pub open spec fn val_of_digits(s: Seq<char>) -> nat
    decreases s.len(),
{
    if s.len() == 0 {
        0
    } else {
        val_of_digits(s.drop_last()) * 10 + digit_val(s.last())
    }
}

/// How many leading characters of `s` are decimal digits.
pub open spec fn digits_prefix_len(s: Seq<char>) -> int
    decreases s.len(),
{
    if s.len() == 0 || !is_digit(s[0]) {
        0
    } else {
        1 + digits_prefix_len(s.drop_first())
    }
}

/// Parsing a decimal `u64` off the front of `s`: the longest digit prefix is
/// taken; no digits at all, or a value beyond `u64`, is a parse failure.
pub open spec fn sp_u64(s: Seq<char>) -> Option<(u64, Seq<char>)> {
    let k = digits_prefix_len(s);
    if k == 0 {
        None
    } else if val_of_digits(s.take(k)) > u64::MAX {
        None
    } else {
        Some((val_of_digits(s.take(k)) as u64, s.skip(k)))
    }
}

/// The digit characters decode back to their values.
pub proof fn lemma_digit_char_val(d: nat)
    requires
        d < 10,
    ensures
        is_digit(digit_char(d)),
        digit_val(digit_char(d)) == d,
{
}

pub proof fn lemma_dec_digits_are_digits(n: nat)
    ensures
        dec_digits(n).len() >= 1,
        forall|i: int| 0 <= i < dec_digits(n).len() ==> is_digit(#[trigger] dec_digits(n)[i]),
    decreases n,
{
    if n >= 10 {
        lemma_dec_digits_are_digits(n / 10);
        assert(forall|i: int|
            0 <= i < dec_digits(n / 10).len() ==> dec_digits(n)[i] == dec_digits(n / 10)[i]);
    }
}

/// Rendering then reading back a number is the identity.
pub proof fn lemma_val_of_dec_digits(n: nat)
    ensures
        val_of_digits(dec_digits(n)) == n,
    decreases n,
{
    if n < 10 {
        lemma_digit_char_val(n);
        assert(dec_digits(n).last() == digit_char(n));
        assert(dec_digits(n).drop_last() =~= Seq::<char>::empty());
        assert(val_of_digits(Seq::<char>::empty()) == 0);
        assert(val_of_digits(dec_digits(n)) == 0 * 10 + digit_val(digit_char(n)));
    } else {
        lemma_val_of_dec_digits(n / 10);
        lemma_digit_char_val(n % 10);
        assert(dec_digits(n).last() == digit_char(n % 10));
        assert(dec_digits(n).drop_last() =~= dec_digits(n / 10));
        assert(val_of_digits(dec_digits(n)) == (n / 10) * 10 + (n % 10));
    }
}

/// The digit prefix of a digit string followed by a non-digit is exactly the
/// digit string.
pub proof fn lemma_digits_prefix_of_concat(s: Seq<char>, rest: Seq<char>)
    requires
        forall|i: int| 0 <= i < s.len() ==> is_digit(#[trigger] s[i]),
        rest.len() == 0 || !is_digit(rest[0]),
    ensures
        digits_prefix_len(s + rest) == s.len(),
    decreases s.len(),
{
    if s.len() == 0 {
        assert(s + rest =~= rest);
    } else {
        assert((s + rest)[0] == s[0]);
        assert((s + rest).drop_first() =~= s.drop_first() + rest);
        lemma_digits_prefix_of_concat(s.drop_first(), rest);
    }
}

/// A decimal rendering followed by anything that does not begin with a digit
/// parses back to the rendered value, consuming exactly the rendering.
pub proof fn lemma_sp_u64_inverts(n: u64, rest: Seq<char>)
    requires
        rest.len() == 0 || !is_digit(rest[0]),
    ensures
        sp_u64(dec_digits(n as nat) + rest) == Some((n, rest)),
{
    let d = dec_digits(n as nat);
    lemma_dec_digits_are_digits(n as nat);
    lemma_digits_prefix_of_concat(d, rest);
    lemma_val_of_dec_digits(n as nat);
    assert((d + rest).take(d.len() as int) =~= d);
    assert((d + rest).skip(d.len() as int) =~= rest);
}

/// A one-character string holding the decimal digit for `d`.
pub fn digit_str(d: u64) -> (r: String)
    requires
        d < 10,
    ensures
        r@ == seq![digit_char(d as nat)],
{
    proof {
        reveal_strlit("0");
        reveal_strlit("1");
        reveal_strlit("2");
        reveal_strlit("3");
        reveal_strlit("4");
        reveal_strlit("5");
        reveal_strlit("6");
        reveal_strlit("7");
        reveal_strlit("8");
        reveal_strlit("9");
    }
    let r = if d == 0 {
        String::from_str("0")
    } else if d == 1 {
        String::from_str("1")
    } else if d == 2 {
        String::from_str("2")
    } else if d == 3 {
        String::from_str("3")
    } else if d == 4 {
        String::from_str("4")
    } else if d == 5 {
        String::from_str("5")
    } else if d == 6 {
        String::from_str("6")
    } else if d == 7 {
        String::from_str("7")
    } else if d == 8 {
        String::from_str("8")
    } else {
        String::from_str("9")
    };
    proof {
        assert(r@ =~= seq![digit_char(d as nat)]);
    }
    r
}

/// The decimal rendering of `n` as a string.
pub fn u64_to_dec(n: u64) -> (r: String)
    ensures
        r@ == dec_digits(n as nat),
    decreases n,
{
    if n < 10 {
        digit_str(n)
    } else {
        let mut s = u64_to_dec(n / 10);
        let tail = digit_str(n % 10);
        s.append(tail.as_str());
        proof {
            assert(s@ =~= dec_digits(n as nat));
        }
        s
    }
}

/// Reads a decimal `u64` at position `i` of `s`, per `sp_u64`.
pub fn parse_u64(s: &str, i: usize) -> (r: Option<(u64, usize)>)
    requires
        i <= s@.len(),
    ensures
        match r {
            Some(p) => i < p.1 <= s@.len() && sp_u64(s@.skip(i as int)) == Some(
                (p.0, s@.skip(p.1 as int)),
            ),
            None => sp_u64(s@.skip(i as int)) is None,
        },
{
    let ghost tail = s@.skip(i as int);
    let n = s.unicode_len();
    let mut j: usize = i;
    // find the digit prefix first
    while j < n && is_digit_exec(s.get_char(j))
        invariant
            i <= j <= n,
            n == s@.len(),
            tail == s@.skip(i as int),
            forall|k: int| i <= k < j ==> is_digit(#[trigger] s@[k]),
        decreases n - j,
    {
        j = j + 1;
    }
    let ghost klen = (j - i) as int;
    proof {
        assert forall|k: int| 0 <= k < klen implies is_digit(#[trigger] tail[k]) by {
            assert(tail[k] == s@[i + k]);
        }
        assert(tail.take(klen) + tail.skip(klen) =~= tail);
        assert(klen < tail.len() ==> !is_digit(tail.skip(klen)[0]));
        lemma_digits_prefix_of_concat(tail.take(klen), tail.skip(klen));
        assert(digits_prefix_len(tail) == klen);
    }
    if j == i {
        return None;
    }
    // then accumulate, watching for overflow
    let mut acc: u64 = 0;
    let mut m: usize = i;
    while m < j
        invariant
            i <= m <= j <= n,
            n == s@.len(),
            tail == s@.skip(i as int),
            forall|k: int| i <= k < j ==> is_digit(#[trigger] s@[k]),
            digits_prefix_len(tail) == j - i,
            acc as nat == val_of_digits(tail.take(m - i)),
        decreases j - m,
    {
        let c = s.get_char(m);
        proof {
            assert(is_digit(s@[m as int]));
        }
        let d32: u32 = (c as u32) - 48;
        let d: u64 = d32 as u64;
        proof {
            assert(d == digit_val(s@[m as int]));
            assert(tail.take(m - i + 1).drop_last() =~= tail.take(m - i));
            assert(tail.take(m - i + 1).last() == s@[m as int]);
        }
        if acc > (u64::MAX - d) / 10 {
            proof {
                assert(acc * 10 + d > u64::MAX) by (nonlinear_arith)
                    requires
                        acc > (u64::MAX - d) / 10,
                        d <= 9,
                ;
                lemma_val_prefix_monotone(tail, m - i + 1, (j - i) as int);
                assert(val_of_digits(tail.take((j - i) as int)) > u64::MAX);
            }
            return None;
        }
        acc = acc * 10 + d;
        m = m + 1;
    }
    proof {
        assert(val_of_digits(tail.take((j - i) as int)) == acc as nat);
    }
    Some((acc, j))
}

/// The value of a digit string only grows as the prefix grows.
proof fn lemma_val_prefix_monotone(s: Seq<char>, a: int, b: int)
    requires
        0 <= a <= b <= s.len(),
    ensures
        val_of_digits(s.take(a)) <= val_of_digits(s.take(b)),
    decreases b - a,
{
    if a < b {
        lemma_val_prefix_monotone(s, a, b - 1);
        assert(s.take(b).drop_last() =~= s.take(b - 1));
        assert(val_of_digits(s.take(b - 1)) * 10 >= val_of_digits(s.take(b - 1))) by (nonlinear_arith);
    }
}

pub fn is_digit_exec(c: char) -> (r: bool)
    ensures
        r == is_digit(c),
{
    let v = c as u32;
    48 <= v && v <= 57
}

/// A character as it appears inside a quoted string: a quote or a backslash
/// is preceded by a backslash, everything else stands as itself.
pub open spec fn esc_char(c: char) -> Seq<char> {
    if c == '"' {
        seq!['\\', '"']
    } else if c == '\\' {
        seq!['\\', '\\']
    } else {
        seq![c]
    }
}

/// A string's characters, escaped for quoting.
pub open spec fn json_escape(s: Seq<char>) -> Seq<char>
    decreases s.len(),
{
    if s.len() == 0 {
        Seq::<char>::empty()
    } else {
        esc_char(s[0]) + json_escape(s.drop_first())
    }
}

/// A quoted, escaped string.
pub open spec fn json_string(s: Seq<char>) -> Seq<char> {
    seq!['"'] + json_escape(s) + seq!['"']
}

pub open spec fn json_bool(b: bool) -> Seq<char> {
    if b {
        "true"@
    } else {
        "false"@
    }
}

/// The rendering of a byte vector: decimal values between brackets,
/// separated by commas.
pub open spec fn bytes_body(v: Seq<u8>) -> Seq<char>
    decreases v.len(),
{
    if v.len() == 0 {
        Seq::<char>::empty()
    } else if v.len() == 1 {
        dec_digits(v[0] as nat)
    } else {
        dec_digits(v[0] as nat) + seq![','] + bytes_body(v.drop_first())
    }
}

pub open spec fn json_bytes(v: Seq<u8>) -> Seq<char> {
    seq!['['] + bytes_body(v) + seq![']']
}

/// Escaping distributes over concatenation.
pub proof fn lemma_escape_concat(a: Seq<char>, b: Seq<char>)
    ensures
        json_escape(a + b) == json_escape(a) + json_escape(b),
    decreases a.len(),
{
    if a.len() == 0 {
        assert(a + b =~= b);
        assert(json_escape(a) + json_escape(b) =~= json_escape(b));
    } else {
        assert((a + b)[0] == a[0]);
        assert((a + b).drop_first() =~= a.drop_first() + b);
        lemma_escape_concat(a.drop_first(), b);
        assert(esc_char(a[0]) + (json_escape(a.drop_first()) + json_escape(b)) =~= (esc_char(a[0])
            + json_escape(a.drop_first())) + json_escape(b));
    }
}

/// Reads the exact text `lit` off the front of `s`.
pub open spec fn sp_lit(s: Seq<char>, lit: Seq<char>) -> Option<Seq<char>> {
    if lit.len() <= s.len() && s.take(lit.len() as int) == lit {
        Some(s.skip(lit.len() as int))
    } else {
        None
    }
}

pub proof fn lemma_sp_lit_inverts(lit: Seq<char>, rest: Seq<char>)
    ensures
        sp_lit(lit + rest, lit) == Some(rest),
{
    assert((lit + rest).take(lit.len() as int) =~= lit);
    assert((lit + rest).skip(lit.len() as int) =~= rest);
}

/// Reads a quoted string's remainder after the opening quote: characters up
/// to the closing quote, undoing the two escapes.  A bare backslash before
/// anything but a quote or a backslash is malformed.
pub open spec fn sp_string_body(s: Seq<char>) -> Option<(Seq<char>, Seq<char>)>
    decreases s.len(),
{
    if s.len() == 0 {
        None
    } else if s[0] == '"' {
        Some((Seq::<char>::empty(), s.drop_first()))
    } else if s[0] == '\\' {
        if s.len() < 2 || !(s[1] == '"' || s[1] == '\\') {
            None
        } else {
            match sp_string_body(s.skip(2)) {
                Some(p) => Some((seq![s[1]] + p.0, p.1)),
                None => None,
            }
        }
    } else {
        match sp_string_body(s.drop_first()) {
            Some(p) => Some((seq![s[0]] + p.0, p.1)),
            None => None,
        }
    }
}

/// Reads a quoted string.
pub open spec fn sp_string(s: Seq<char>) -> Option<(Seq<char>, Seq<char>)> {
    if s.len() > 0 && s[0] == '"' {
        sp_string_body(s.drop_first())
    } else {
        None
    }
}

/// What remains after reading a string is a strict suffix.
pub proof fn lemma_sp_string_suffix(s: Seq<char>)
    ensures
        sp_string(s) matches Some(p) ==> p.1.len() < s.len(),
{
    if s.len() > 0 && s[0] == '"' {
        lemma_sp_string_body_suffix(s.drop_first());
    }
}

proof fn lemma_sp_string_body_suffix(s: Seq<char>)
    ensures
        sp_string_body(s) matches Some(p) ==> p.1.len() < s.len(),
    decreases s.len(),
{
    if s.len() == 0 {
    } else if s[0] == '"' {
    } else if s[0] == '\\' {
        if s.len() >= 2 && (s[1] == '"' || s[1] == '\\') {
            lemma_sp_string_body_suffix(s.skip(2));
        }
    } else {
        lemma_sp_string_body_suffix(s.drop_first());
    }
}

/// Reading back an escaped, quoted string yields the original characters.
pub proof fn lemma_sp_string_inverts(k: Seq<char>, rest: Seq<char>)
    ensures
        sp_string(json_string(k) + rest) == Some((k, rest)),
{
    let s = json_string(k) + rest;
    assert(s[0] == '"');
    assert(s.drop_first() =~= json_escape(k) + (seq!['"'] + rest));
    lemma_sp_string_body_inverts(k, rest);
}

proof fn lemma_sp_string_body_inverts(k: Seq<char>, rest: Seq<char>)
    ensures
        sp_string_body(json_escape(k) + (seq!['"'] + rest)) == Some((k, rest)),
    decreases k.len(),
{
    let s = json_escape(k) + (seq!['"'] + rest);
    if k.len() == 0 {
        assert(s =~= seq!['"'] + rest);
        assert(s[0] == '"');
        assert(s.drop_first() =~= rest);
    } else {
        let c = k[0];
        let k1 = k.drop_first();
        lemma_sp_string_body_inverts(k1, rest);
        let tail = json_escape(k1) + (seq!['"'] + rest);
        assert(json_escape(k) == esc_char(c) + json_escape(k1));
        if c == '"' || c == '\\' {
            assert(s =~= seq!['\\', c] + tail);
            assert(s[0] == '\\');
            assert(s[1] == c);
            assert(s.len() >= 2);
            assert(s.skip(2) =~= tail);
            assert(seq![c] + k1 =~= k);
        } else {
            assert(s =~= seq![c] + tail);
            assert(s[0] == c);
            assert(s.drop_first() =~= tail);
            assert(seq![c] + k1 =~= k);
        }
    }
}

/// Reads a byte: a decimal number no larger than 255.
pub open spec fn sp_byte(s: Seq<char>) -> Option<(u8, Seq<char>)> {
    match sp_u64(s) {
        Some(p) => if p.0 <= 255 {
            Some((p.0 as u8, p.1))
        } else {
            None
        },
        None => None,
    }
}

pub proof fn lemma_sp_u64_suffix(s: Seq<char>)
    ensures
        sp_u64(s) matches Some(p) ==> p.1.len() < s.len(),
{
    lemma_digits_prefix_len_bounds(s);
}

pub proof fn lemma_digits_prefix_len_bounds(s: Seq<char>)
    ensures
        0 <= digits_prefix_len(s) <= s.len(),
    decreases s.len(),
{
    if s.len() > 0 && is_digit(s[0]) {
        lemma_digits_prefix_len_bounds(s.drop_first());
    }
}

pub proof fn lemma_sp_byte_inverts(b: u8, rest: Seq<char>)
    requires
        rest.len() == 0 || !is_digit(rest[0]),
    ensures
        sp_byte(dec_digits(b as nat) + rest) == Some((b, rest)),
{
    lemma_sp_u64_inverts(b as u64, rest);
}

#[via_fn]
proof fn sp_bytes_elems_decreases(s: Seq<char>)
{
    lemma_digits_prefix_len_bounds(s);
}

/// Reads the elements of a non-empty byte array, up to and including the
/// closing bracket.
pub open spec fn sp_bytes_elems(s: Seq<char>) -> Option<(Seq<u8>, Seq<char>)>
    decreases s.len() via sp_bytes_elems_decreases
{
    let k = digits_prefix_len(s);
    if k == 0 || val_of_digits(s.take(k)) > 255 {
        None
    } else {
        let b = val_of_digits(s.take(k)) as u8;
        let r = s.skip(k);
        if r.len() > 0 && r[0] == ',' {
            match sp_bytes_elems(s.skip(k + 1)) {
                Some(p) => Some((seq![b] + p.0, p.1)),
                None => None,
            }
        } else if r.len() > 0 && r[0] == ']' {
            Some((seq![b], r.drop_first()))
        } else {
            None
        }
    }
}

/// Reads a byte array, brackets included.
pub open spec fn sp_bytes(s: Seq<char>) -> Option<(Seq<u8>, Seq<char>)> {
    if s.len() == 0 || s[0] != '[' {
        None
    } else {
        let r = s.drop_first();
        if r.len() > 0 && r[0] == ']' {
            Some((Seq::<u8>::empty(), r.drop_first()))
        } else {
            sp_bytes_elems(r)
        }
    }
}

pub proof fn lemma_sp_bytes_suffix(s: Seq<char>)
    ensures
        sp_bytes(s) matches Some(p) ==> p.1.len() < s.len(),
{
    if s.len() > 0 && s[0] == '[' {
        lemma_sp_bytes_elems_suffix(s.drop_first());
    }
}

proof fn lemma_sp_bytes_elems_suffix(s: Seq<char>)
    ensures
        sp_bytes_elems(s) matches Some(p) ==> p.1.len() < s.len(),
    decreases s.len(),
{
    lemma_digits_prefix_len_bounds(s);
    let k = digits_prefix_len(s);
    if k != 0 && val_of_digits(s.take(k)) <= 255 {
        let r = s.skip(k);
        if r.len() > 0 && r[0] == ',' {
            lemma_sp_bytes_elems_suffix(s.skip(k + 1));
        }
    }
}

/// Reading back a rendered byte array yields the original bytes.
pub proof fn lemma_sp_bytes_inverts(v: Seq<u8>, rest: Seq<char>)
    requires
        rest.len() == 0 || !is_digit(rest[0]),
    ensures
        sp_bytes(json_bytes(v) + rest) == Some((v, rest)),
{
    let s = json_bytes(v) + rest;
    assert(s[0] == '[');
    if v.len() == 0 {
        assert(s =~= seq!['[', ']'] + rest);
        assert(s.drop_first()[0] == ']');
        assert(s.drop_first().drop_first() =~= rest);
        assert(Some((Seq::<u8>::empty(), s.drop_first().drop_first())) == sp_bytes(s));
    } else {
        assert(s.drop_first() =~= bytes_body(v) + (seq![']'] + rest));
        lemma_sp_bytes_elems_inverts(v, rest);
        let first = bytes_body(v)[0];
        lemma_dec_digits_are_digits(v[0] as nat);
        assert(bytes_body(v)[0] == dec_digits(v[0] as nat)[0]);
        assert(s.drop_first()[0] == bytes_body(v)[0]);
        assert(is_digit(s.drop_first()[0]));
        assert(s.drop_first()[0] != ']');
    }
}

proof fn lemma_sp_bytes_elems_inverts(v: Seq<u8>, rest: Seq<char>)
    requires
        v.len() >= 1,
        rest.len() == 0 || !is_digit(rest[0]),
    ensures
        sp_bytes_elems(bytes_body(v) + (seq![']'] + rest)) == Some((v, rest)),
    decreases v.len(),
{
    let s = bytes_body(v) + (seq![']'] + rest);
    let d = dec_digits(v[0] as nat);
    lemma_dec_digits_are_digits(v[0] as nat);
    if v.len() == 1 {
        let after = seq![']'] + rest;
        assert(s =~= d + after);
        assert(!is_digit(after[0]));
        lemma_sp_u64_inverts(v[0] as u64, after);
        lemma_val_of_dec_digits(v[0] as nat);
        let k = digits_prefix_len(s);
        lemma_digits_prefix_of_concat(d, after);
        assert(k == d.len());
        assert(s.take(k) =~= d);
        assert(s.skip(k) =~= after);
        assert(s.skip(k)[0] == ']');
        assert(s.skip(k).drop_first() =~= rest);
    } else {
        let v1 = v.drop_first();
        let tail = bytes_body(v1) + (seq![']'] + rest);
        assert(s =~= d + (seq![','] + tail));
        let after = seq![','] + tail;
        assert(!is_digit(after[0]));
        lemma_digits_prefix_of_concat(d, after);
        let k = digits_prefix_len(s);
        assert(k == d.len());
        assert(s.take(k) =~= d);
        lemma_val_of_dec_digits(v[0] as nat);
        assert(s.skip(k) =~= after);
        assert(s.skip(k)[0] == ',');
        lemma_sp_bytes_elems_inverts(v1, rest);
        assert(s.skip(k + 1) =~= tail);
        assert(seq![v[0]] + v1 =~= v);
    }
}

/// Reads `true` or `false`.
pub open spec fn sp_bool(s: Seq<char>) -> Option<(bool, Seq<char>)> {
    match sp_lit(s, "true"@) {
        Some(r) => Some((true, r)),
        None => match sp_lit(s, "false"@) {
            Some(r) => Some((false, r)),
            None => None,
        },
    }
}

pub proof fn lemma_sp_bool_inverts(b: bool, rest: Seq<char>)
    ensures
        sp_bool(json_bool(b) + rest) == Some((b, rest)),
{
    reveal_strlit("true");
    reveal_strlit("false");
    lemma_sp_lit_inverts(json_bool(b), rest);
    if !b {
        let s = "false"@ + rest;
        assert(s[0] == 'f');
        assert("true"@.len() <= s.len() ==> s.take("true"@.len() as int)[0] == 'f');
        assert(sp_lit(s, "true"@) is None);
    }
}

/// Reads the exact text `lit` at position `i` of `s`, per `sp_lit`.
pub fn parse_lit(s: &str, i: usize, lit: &str) -> (r: Option<usize>)
    requires
        i <= s@.len(),
    ensures
        match r {
            Some(j) => i <= j <= s@.len() && sp_lit(s@.skip(i as int), lit@) == Some(
                s@.skip(j as int),
            ) && j - i == lit@.len(),
            None => sp_lit(s@.skip(i as int), lit@) is None,
        },
{
    let n = s.unicode_len();
    let m = lit.unicode_len();
    if m > n - i {
        return None;
    }
    let mut k: usize = 0;
    while k < m
        invariant
            i <= n,
            n == s@.len(),
            m == lit@.len(),
            m <= n - i,
            k <= m,
            forall|t: int| 0 <= t < k ==> s@[i + t] == lit@[t],
        decreases m - k,
    {
        if s.get_char(i + k) != lit.get_char(k) {
            proof {
                assert(s@.skip(i as int).take(m as int)[k as int] == s@[i + k as int]);
            }
            return None;
        }
        k = k + 1;
    }
    proof {
        assert(s@.skip(i as int).take(m as int) =~= lit@);
        assert(s@.skip(i as int).skip(m as int) =~= s@.skip(i as int + m as int));
    }
    Some(i + m)
}

/// Reads a quoted string at position `i` of `s`, per `sp_string`.
pub fn parse_string(s: &str, i: usize) -> (r: Option<(String, usize)>)
    requires
        i <= s@.len(),
    ensures
        match r {
            Some(p) => i < p.1 <= s@.len() && (sp_string(s@.skip(i as int)) matches Some(q)
                && q.0 == p.0@ && q.1 == s@.skip(p.1 as int)),
            None => sp_string(s@.skip(i as int)) is None,
        },
{
    let n = s.unicode_len();
    if i >= n {
        return None;
    }
    if s.get_char(i) != '"' {
        proof {
            assert(s@.skip(i as int)[0] == s@[i as int]);
        }
        return None;
    }
    let mut out = String::new();
    proof {
        assert(s@.skip(i as int)[0] == s@[i as int]);
        assert(s@.skip(i as int).drop_first() =~= s@.skip(i as int + 1));
    }
    match parse_string_body(s, i + 1, &mut out) {
        Some(j) => Some((out, j)),
        None => None,
    }
}

/// Reads a string's remainder after the opening quote, appending the content
/// to `out`, per `sp_string_body`.
fn parse_string_body(s: &str, i: usize, out: &mut String) -> (r: Option<usize>)
    requires
        i <= s@.len(),
    ensures
        match r {
            Some(j) => i < j <= s@.len() && (sp_string_body(s@.skip(i as int)) matches Some(q)
                && final(out)@ == old(out)@ + q.0 && q.1 == s@.skip(j as int)),
            None => sp_string_body(s@.skip(i as int)) is None,
        },
    decreases s@.len() - i,
{
    let ghost tail = s@.skip(i as int);
    let n = s.unicode_len();
    if i >= n {
        return None;
    }
    let c = s.get_char(i);
    proof {
        assert(tail[0] == s@[i as int]);
        assert(tail.drop_first() =~= s@.skip(i as int + 1));
    }
    if c == '"' {
        proof {
            assert(old(out)@ + Seq::<char>::empty() =~= old(out)@);
        }
        return Some(i + 1);
    }
    if c == '\\' {
        if i + 1 >= n {
            return None;
        }
        let c2 = s.get_char(i + 1);
        proof {
            assert(tail[1] == s@[i as int + 1]);
        }
        if c2 == '"' {
            out.append("\"");
            proof {
                reveal_strlit("\"");
            }
        } else if c2 == '\\' {
            out.append("\\");
            proof {
                reveal_strlit("\\");
            }
        } else {
            return None;
        }
        let ghost mid = out@;
        proof {
            assert(mid =~= old(out)@ + seq![c2]);
            assert(tail.skip(2) =~= s@.skip(i as int + 2));
        }
        let r = parse_string_body(s, i + 2, out);
        proof {
            if let Some(q) = sp_string_body(s@.skip(i as int + 2)) {
                assert((old(out)@ + seq![c2]) + q.0 =~= old(out)@ + (seq![c2] + q.0));
            }
        }
        return r;
    }
    let piece = s.substring_char(i, i + 1);
    out.append(piece);
    let ghost mid = out@;
    proof {
        assert(piece@ =~= seq![c]);
        assert(mid =~= old(out)@ + seq![c]);
    }
    let r = parse_string_body(s, i + 1, out);
    proof {
        if let Some(q) = sp_string_body(s@.skip(i as int + 1)) {
            assert((old(out)@ + seq![c]) + q.0 =~= old(out)@ + (seq![c] + q.0));
        }
    }
    r
}

/// Reads `true` or `false` at position `i` of `s`, per `sp_bool`.
pub fn parse_bool(s: &str, i: usize) -> (r: Option<(bool, usize)>)
    requires
        i <= s@.len(),
    ensures
        match r {
            Some(p) => i <= p.1 <= s@.len() && sp_bool(s@.skip(i as int)) == Some(
                (p.0, s@.skip(p.1 as int)),
            ),
            None => sp_bool(s@.skip(i as int)) is None,
        },
{
    match parse_lit(s, i, "true") {
        Some(j) => Some((true, j)),
        None => match parse_lit(s, i, "false") {
            Some(j) => Some((false, j)),
            None => None,
        },
    }
}

/// Appends `s` with quote and backslash escaped, per `json_escape`.
pub fn append_escaped(out: &mut String, s: &str)
    ensures
        final(out)@ == old(out)@ + json_escape(s@),
{
    let n = s.unicode_len();
    let mut i: usize = 0;
    proof {
        assert(old(out)@ + json_escape(s@.take(0)) =~= old(out)@);
    }
    while i < n
        invariant
            n == s@.len(),
            i <= n,
            out@ == old(out)@ + json_escape(s@.take(i as int)),
        decreases n - i,
    {
        let c = s.get_char(i);
        proof {
            assert(s@.take(i as int + 1) =~= s@.take(i as int) + seq![s@[i as int]]);
            lemma_escape_concat(s@.take(i as int), seq![s@[i as int]]);
            assert(seq![c].drop_first() =~= Seq::<char>::empty());
            assert(json_escape(Seq::<char>::empty()) == Seq::<char>::empty());
            assert(esc_char(c) + Seq::<char>::empty() =~= esc_char(c));
            assert(json_escape(seq![c]) =~= esc_char(c));
        }
        if c == '"' {
            out.append("\\\"");
            proof {
                reveal_strlit("\\\"");
                assert("\\\""@ =~= esc_char('"'));
            }
        } else if c == '\\' {
            out.append("\\\\");
            proof {
                reveal_strlit("\\\\");
                assert("\\\\"@ =~= esc_char('\\'));
            }
        } else {
            let piece = s.substring_char(i, i + 1);
            out.append(piece);
            proof {
                assert(piece@ =~= esc_char(c));
            }
        }
        proof {
            assert(out@ =~= old(out)@ + json_escape(s@.take(i as int + 1)));
        }
        i = i + 1;
    }
    proof {
        assert(s@.take(n as int) =~= s@);
    }
}

/// Appends `s` as a quoted, escaped string, per `json_string`.
pub fn append_json_string(out: &mut String, s: &str)
    ensures
        final(out)@ == old(out)@ + json_string(s@),
{
    out.append("\"");
    append_escaped(out, s);
    out.append("\"");
    proof {
        reveal_strlit("\"");
        assert(out@ =~= old(out)@ + json_string(s@));
    }
}

/// Appends `true` or `false`, per `json_bool`.
pub fn append_bool(out: &mut String, b: bool)
    ensures
        final(out)@ == old(out)@ + json_bool(b),
{
    if b {
        out.append("true");
    } else {
        out.append("false");
    }
}

} // verus!
