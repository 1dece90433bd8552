use nuke_server::commands::Command;
use nuke_server::database::Database;
use nuke_server::response::{
    AdminCommandResponse, CommandResponse, ErrorResponse, KeysResponse, PartitionDetail,
    PartitionsDetailsResponse, ValueResponse,
};
use nuke_server::server::handle_request;

#[test]
fn parses_push_with_key_and_value() {
    match Command::from_str("push Key Value").unwrap() {
        Command::Push(key, value) => {
            assert_eq!(key, "key");
            assert_eq!(value, b"value".to_vec());
        }
        _ => panic!("expected a push command"),
    }
}

#[test]
fn parses_pop_read_and_admin_commands() {
    assert!(matches!(Command::from_str("POP abc").unwrap(), Command::Pop(k) if k == "abc"));
    assert!(matches!(Command::from_str("read abc").unwrap(), Command::Read(k) if k == "abc"));
    assert!(matches!(Command::from_str("keys").unwrap(), Command::Keys));
    assert!(matches!(
        Command::from_str("partitions_details").unwrap(),
        Command::PartitionsDetails
    ));
    assert!(matches!(Command::from_str("clear").unwrap(), Command::Clear));
    assert!(matches!(Command::from_str("QUIT").unwrap(), Command::Quit));
}

#[test]
fn rejects_malformed_commands() {
    assert_eq!(Command::from_str("").unwrap_err(), "Empty command");
    assert_eq!(Command::from_str("   ").unwrap_err(), "Empty command");
    assert_eq!(Command::from_str("pop").unwrap_err(), "Missing key");
    assert_eq!(Command::from_str("read").unwrap_err(), "Missing key");
    assert_eq!(Command::from_str("push").unwrap_err(), "Missing key");
    assert_eq!(Command::from_str("push key").unwrap_err(), "Missing value");
    assert_eq!(
        Command::from_str("bogus x").unwrap_err(),
        "Unrecognized command: bogus"
    );
}

#[test]
fn handle_request_push_then_read() {
    let mut db = Database::new(4, "data".to_string());
    let push = Command::from_str("push a xyz").unwrap();
    let response = handle_request(push, &mut db);
    assert_eq!(response, "{\"key\":\"a\",\"value\":[120,121,122]}");
    let read = Command::from_str("read a").unwrap();
    let response = handle_request(read, &mut db);
    assert_eq!(response, "{\"key\":\"a\",\"value\":[120,121,122]}");
}

#[test]
fn handle_request_errors_and_admin() {
    let mut db = Database::new(4, "data".to_string());
    let response = handle_request(Command::from_str("read missing").unwrap(), &mut db);
    assert_eq!(response, "{\"code\":0,\"message\":\"Key not found\"}");
    let response = handle_request(Command::from_str("pop missing").unwrap(), &mut db);
    assert_eq!(response, "{\"code\":0,\"message\":\"Key not found\"}");
    let response = handle_request(Command::from_str("clear").unwrap(), &mut db);
    assert_eq!(response, "{\"code\":0,\"message\":\"Database cleared\"}");
    assert_eq!(db.count_entries(), 0);
    let response = handle_request(Command::from_str("quit").unwrap(), &mut db);
    assert_eq!(response, "{\"code\":0,\"message\":\"Quitting\"}");
}

#[test]
fn handle_request_keys() {
    let mut db = Database::new(1, "data".to_string());
    handle_request(Command::from_str("push b 1").unwrap(), &mut db);
    handle_request(Command::from_str("push a 2").unwrap(), &mut db);
    let response = handle_request(Command::from_str("keys").unwrap(), &mut db);
    assert_eq!(response, "{\"keys\":[\"b\",\"a\"]}");
}

#[test]
fn handle_request_partitions_details() {
    let mut db = Database::new(2, "data".to_string());
    let response = handle_request(Command::from_str("partitions_details").unwrap(), &mut db);
    assert_eq!(
        response,
        "{\"partitions\":[{\"partition\":0,\"keys\":[]},{\"partition\":1,\"keys\":[]}]}"
    );
}

#[test]
fn response_objects_render_exactly() {
    let v = ValueResponse { key: "k\"q".to_string(), value: vec![0, 255] };
    assert_eq!(v.to_json(), "{\"key\":\"k\\\"q\",\"value\":[0,255]}");
    let k = KeysResponse { keys: vec!["a".to_string(), "b".to_string()] };
    assert_eq!(k.to_json(), "{\"keys\":[\"a\",\"b\"]}");
    let a = AdminCommandResponse { message: "done".to_string(), ok: true };
    assert_eq!(a.to_json(), "{\"message\":\"done\",\"ok\":true}");
    let e = ErrorResponse { code: 7, message: "oops".to_string() };
    assert_eq!(e.to_json(), "{\"code\":7,\"message\":\"oops\"}");
    let d = PartitionsDetailsResponse {
        partitions: vec![PartitionDetail { partition: 3, keys: vec!["x".to_string()] }],
    };
    assert_eq!(d.to_json(), "{\"partitions\":[{\"partition\":3,\"keys\":[\"x\"]}]}");
}
