//! The wire commands and their parser: the command line is lowercased
//! (ASCII letters only), split on whitespace, and matched on its first
//! token.

use vstd::prelude::*;
use vstd::string::StrSliceExecFns;
use vstd::string::StringExecFns;

verus! {

/// One parsed wire command.
#[derive(Debug)]
pub enum Command {
    Pop(String),
    Push(String, Vec<u8>),
    Read(String),
    Keys,
    PartitionsDetails,
    Clear,
    Quit,
}

/// ASCII lowercasing of one character; anything but `A` to `Z` stands as
/// itself.
pub open spec fn lower_char(c: char) -> char {
    if c == 'A' {
        'a'
    } else if c == 'B' {
        'b'
    } else if c == 'C' {
        'c'
    } else if c == 'D' {
        'd'
    } else if c == 'E' {
        'e'
    } else if c == 'F' {
        'f'
    } else if c == 'G' {
        'g'
    } else if c == 'H' {
        'h'
    } else if c == 'I' {
        'i'
    } else if c == 'J' {
        'j'
    } else if c == 'K' {
        'k'
    } else if c == 'L' {
        'l'
    } else if c == 'M' {
        'm'
    } else if c == 'N' {
        'n'
    } else if c == 'O' {
        'o'
    } else if c == 'P' {
        'p'
    } else if c == 'Q' {
        'q'
    } else if c == 'R' {
        'r'
    } else if c == 'S' {
        's'
    } else if c == 'T' {
        't'
    } else if c == 'U' {
        'u'
    } else if c == 'V' {
        'v'
    } else if c == 'W' {
        'w'
    } else if c == 'X' {
        'x'
    } else if c == 'Y' {
        'y'
    } else if c == 'Z' {
        'z'
    } else {
        c
    }
}

pub open spec fn lower(s: Seq<char>) -> Seq<char> {
    s.map_values(|c: char| lower_char(c))
}

/// The token separators: ASCII whitespace.
pub open spec fn is_ws(c: char) -> bool {
    c == ' ' || c == '\t' || c == '\n' || c == '\r'
}

/// The length of the leading run of non-separator characters.
pub open spec fn word_len(s: Seq<char>) -> int
    decreases s.len(),
{
    if s.len() == 0 || is_ws(s[0]) {
        0
    } else {
        1 + word_len(s.drop_first())
    }
}

pub proof fn lemma_word_len_bounds(s: Seq<char>)
    ensures
        0 <= word_len(s) <= s.len(),
    decreases s.len(),
{
    if s.len() > 0 && !is_ws(s[0]) {
        lemma_word_len_bounds(s.drop_first());
    }
}

#[via_fn]
proof fn tokens_of_decreases(s: Seq<char>) {
    lemma_word_len_bounds(s);
    if s.len() > 0 && !is_ws(s[0]) {
        lemma_word_len_bounds(s.drop_first());
        assert(word_len(s) == 1 + word_len(s.drop_first()));
        assert(word_len(s) >= 1);
    }
}

/// The whitespace-separated tokens of `s`, in order.
pub open spec fn tokens_of(s: Seq<char>) -> Seq<Seq<char>>
    decreases s.len(),
    via tokens_of_decreases
{
    if s.len() == 0 {
        Seq::<Seq<char>>::empty()
    } else if is_ws(s[0]) {
        tokens_of(s.drop_first())
    } else {
        seq![s.take(word_len(s))] + tokens_of(s.skip(word_len(s)))
    }
}

/// ASCII lowercasing of a string.
pub fn to_lower(s: &str) -> (r: String)
    ensures
        r@ == lower(s@),
{
    let n = s.unicode_len();
    let mut out = String::new();
    let mut i: usize = 0;
    while i < n
        invariant
            n == s@.len(),
            i <= n,
            out@ == lower(s@).take(i as int),
        decreases n - i,
    {
        let c = s.get_char(i);
        proof {
            reveal_strlit("a");
            reveal_strlit("b");
            reveal_strlit("c");
            reveal_strlit("d");
            reveal_strlit("e");
            reveal_strlit("f");
            reveal_strlit("g");
            reveal_strlit("h");
            reveal_strlit("i");
            reveal_strlit("j");
            reveal_strlit("k");
            reveal_strlit("l");
            reveal_strlit("m");
            reveal_strlit("n");
            reveal_strlit("o");
            reveal_strlit("p");
            reveal_strlit("q");
            reveal_strlit("r");
            reveal_strlit("s");
            reveal_strlit("t");
            reveal_strlit("u");
            reveal_strlit("v");
            reveal_strlit("w");
            reveal_strlit("x");
            reveal_strlit("y");
            reveal_strlit("z");
        }
    if c == 'A' {
        out.append("a");
    } else if c == 'B' {
        out.append("b");
    } else if c == 'C' {
        out.append("c");
    } else if c == 'D' {
        out.append("d");
    } else if c == 'E' {
        out.append("e");
    } else if c == 'F' {
        out.append("f");
    } else if c == 'G' {
        out.append("g");
    } else if c == 'H' {
        out.append("h");
    } else if c == 'I' {
        out.append("i");
    } else if c == 'J' {
        out.append("j");
    } else if c == 'K' {
        out.append("k");
    } else if c == 'L' {
        out.append("l");
    } else if c == 'M' {
        out.append("m");
    } else if c == 'N' {
        out.append("n");
    } else if c == 'O' {
        out.append("o");
    } else if c == 'P' {
        out.append("p");
    } else if c == 'Q' {
        out.append("q");
    } else if c == 'R' {
        out.append("r");
    } else if c == 'S' {
        out.append("s");
    } else if c == 'T' {
        out.append("t");
    } else if c == 'U' {
        out.append("u");
    } else if c == 'V' {
        out.append("v");
    } else if c == 'W' {
        out.append("w");
    } else if c == 'X' {
        out.append("x");
    } else if c == 'Y' {
        out.append("y");
    } else if c == 'Z' {
        out.append("z");
    } else {
        let piece = s.substring_char(i, i + 1);
        out.append(piece);
    }
        proof {
            assert(lower(s@)[i as int] == lower_char(s@[i as int]));
            assert(out@ =~= lower(s@).take(i as int + 1));
        }
        i = i + 1;
    }
    proof {
        assert(lower(s@).take(n as int) =~= lower(s@));
    }
    out
}

fn is_ws_exec(c: char) -> (r: bool)
    ensures
        r == is_ws(c),
{
    c == ' ' || c == '\t' || c == '\n' || c == '\r'
}

/// The tokens of `s` from position `i` on.
fn tokens_from(s: &str, i: usize) -> (r: Vec<String>)
    requires
        i <= s@.len(),
    ensures
        r@.map_values(|x: String| x@) == tokens_of(s@.skip(i as int)),
    decreases s@.len() - i,
{
    let ghost t = s@.skip(i as int);
    let n = s.unicode_len();
    if i == n {
        let r: Vec<String> = Vec::new();
        proof {
            assert(r@.map_values(|x: String| x@) =~= tokens_of(t));
        }
        return r;
    }
    let c = s.get_char(i);
    proof {
        assert(t[0] == s@[i as int]);
        assert(t.drop_first() =~= s@.skip(i as int + 1));
    }
    if is_ws_exec(c) {
        return tokens_from(s, i + 1);
    }
    let mut j: usize = i;
    while j < n && !is_ws_exec(s.get_char(j))
        invariant
            i <= j <= n,
            n == s@.len(),
            forall|k: int| i <= k < j ==> !is_ws(#[trigger] s@[k]),
        decreases n - j,
    {
        j = j + 1;
    }
    proof {
        let k = (j - i) as int;
        assert forall|m: int| 0 <= m < k implies !is_ws(#[trigger] t[m]) by {
            assert(t[m] == s@[i + m]);
        }
        assert(k < t.len() ==> is_ws(t[k]));
        lemma_word_run(t, k);
        assert(word_len(t) == k);
        assert(t.take(k) =~= s@.subrange(i as int, j as int));
        assert(t.skip(k) =~= s@.skip(j as int));
    }
    let word = s.substring_char(i, j).to_owned();
    let rest = tokens_from(s, j);
    let mut r = rest;
    r.insert(0, word);
    proof {
        assert(r@.map_values(|x: String| x@) =~= seq![t.take(word_len(t))] + tokens_of(
            t.skip(word_len(t)),
        )) by {
            let f = |x: String| x@;
            assert(r@.map_values(f).len() == tokens_of(t).len());
            assert forall|m: int| 0 <= m < r@.len() implies #[trigger] r@.map_values(f)[m] == (
            seq![t.take(word_len(t))] + tokens_of(t.skip(word_len(t))))[m] by {
                if m > 0 {
                    assert(r@[m] == r@.subrange(1, r@.len() as int)[m - 1]);
                }
            }
        }
    }
    r
}

/// A run of non-separators up to a separator or the end is exactly the
/// leading word.
proof fn lemma_word_run(s: Seq<char>, k: int)
    requires
        0 <= k <= s.len(),
        forall|m: int| 0 <= m < k ==> !is_ws(#[trigger] s[m]),
        k == s.len() || is_ws(s[k]),
    ensures
        word_len(s) == k,
    decreases s.len(),
{
    if k > 0 {
        assert(!is_ws(s[0]));
        assert forall|m: int| 0 <= m < k - 1 implies !is_ws(#[trigger] s.drop_first()[m]) by {
            assert(s.drop_first()[m] == s[m + 1]);
        }
        assert(k - 1 == s.drop_first().len() || is_ws(s.drop_first()[k - 1]));
        lemma_word_run(s.drop_first(), k - 1);
    }
}

impl Command {
    /// Parses one command line.  The line is ASCII-lowercased and split on
    /// whitespace; the first token names the command, `pop`, `read` and
    /// `push` take a key, and `push` takes a value, stored as the token's
    /// bytes.  Anything else is rejected with a message.
    pub fn from_str(command: &str) -> (r: Result<Command, String>)
        ensures
            ({
                let ts = tokens_of(lower(command@));
                match r {
                    Ok(c) => match c {
                        Command::Pop(k) => ts.len() >= 2 && ts[0] == "pop"@ && k@ == ts[1],
                        Command::Push(k, v) => ts.len() >= 3 && ts[0] == "push"@ && k@ == ts[1]
                            && v@ == vstd::utf8::encode_utf8(ts[2]),
                        Command::Read(k) => ts.len() >= 2 && ts[0] == "read"@ && k@ == ts[1],
                        Command::Keys => ts.len() >= 1 && ts[0] == "keys"@,
                        Command::PartitionsDetails => ts.len() >= 1 && ts[0]
                            == "partitions_details"@,
                        Command::Clear => ts.len() >= 1 && ts[0] == "clear"@,
                        Command::Quit => ts.len() >= 1 && ts[0] == "quit"@,
                    },
                    Err(m) => {
                        ||| (ts.len() == 0 && m@ == "Empty command"@)
                        ||| (ts.len() == 1 && (ts[0] == "pop"@ || ts[0] == "read"@ || ts[0]
                            == "push"@) && m@ == "Missing key"@)
                        ||| (ts.len() == 2 && ts[0] == "push"@ && m@ == "Missing value"@)
                        ||| (ts.len() >= 1 && !(ts[0] == "pop"@ || ts[0] == "read"@ || ts[0]
                            == "push"@ || ts[0] == "keys"@ || ts[0] == "partitions_details"@ || ts[0]
                            == "clear"@ || ts[0] == "quit"@) && m@ == "Unrecognized command: "@
                            + ts[0])
                    },
                }
            }),
    {
        let low = to_lower(command);
        let toks = tokens_from(low.as_str(), 0);
        let pop_s = String::from_str("pop");
        let read_s = String::from_str("read");
        let push_s = String::from_str("push");
        let keys_s = String::from_str("keys");
        let details_s = String::from_str("partitions_details");
        let clear_s = String::from_str("clear");
        let quit_s = String::from_str("quit");
        proof {
            assert(low@.skip(0) =~= low@);
        }
        let ghost ts = tokens_of(lower(command@));
        if toks.len() == 0 {
            return Err(String::from_str("Empty command"));
        }
        proof {
            assert(toks@[0]@ == ts[0]);
        }
        if toks[0] == pop_s || toks[0] == read_s {
            let is_pop = toks[0] == pop_s;
            if toks.len() < 2 {
                return Err(String::from_str("Missing key"));
            }
            proof {
                assert(toks@[1]@ == ts[1]);
            }
            let key = toks[1].clone();
            if is_pop {
                return Ok(Command::Pop(key));
            }
            return Ok(Command::Read(key));
        }
        if toks[0] == push_s {
            if toks.len() < 2 {
                return Err(String::from_str("Missing key"));
            }
            if toks.len() < 3 {
                return Err(String::from_str("Missing value"));
            }
            proof {
                assert(toks@[1]@ == ts[1]);
                assert(toks@[2]@ == ts[2]);
            }
            let key = toks[1].clone();
            let value = toks[2].as_str().as_bytes_vec();
            return Ok(Command::Push(key, value));
        }
        if toks[0] == keys_s {
            return Ok(Command::Keys);
        }
        if toks[0] == details_s {
            return Ok(Command::PartitionsDetails);
        }
        if toks[0] == clear_s {
            return Ok(Command::Clear);
        }
        if toks[0] == quit_s {
            return Ok(Command::Quit);
        }
        let mut m = String::from_str("Unrecognized command: ");
        m.append(toks[0].as_str());
        Err(m)
    }
}

} // verus!
