use kvstore::codec::{decode, encode, Decoded};
use kvstore::frame::Frame;
use kvstore::server::{respond, Connection};
use kvstore::store::Store;

fn bulk(s: &str) -> Frame {
    Frame::Bulk(s.as_bytes().to_vec())
}

fn request(parts: &[&str]) -> Frame {
    Frame::Array(parts.iter().map(|p| bulk(p)).collect())
}

fn reply(bytes: Option<Vec<u8>>) -> Frame {
    let bytes = bytes.expect("a response");
    match decode(&bytes) {
        Decoded::Frame(f, n) => {
            assert_eq!(n, bytes.len());
            f
        }
        other => panic!("not a frame: {:?}", other),
    }
}

#[test]
fn get_of_unknown_key_is_null() {
    let mut store = Store::new();
    assert_eq!(respond(&mut store, &request(&["GET", "missing"])), Frame::Null);
    assert_eq!(store.get(&"missing".to_string()), None);
}

#[test]
fn set_answers_ok_and_get_finds_value() {
    let mut store = Store::new();
    assert_eq!(respond(&mut store, &request(&["SET", "k", "v"])), Frame::Simple("OK".to_string()));
    assert_eq!(respond(&mut store, &request(&["get", "k"])), bulk("v"));
}

#[test]
fn error_messages_per_kind() {
    let mut store = Store::new();
    assert_eq!(respond(&mut store, &request(&["DEL", "k"])), Frame::Error("ERR unknown command".to_string()));
    assert_eq!(respond(&mut store, &request(&["GET"])), Frame::Error("ERR wrong number of arguments".to_string()));
    assert_eq!(respond(&mut store, &Frame::Integer(1)), Frame::Error("ERR request is not a command".to_string()));
    assert_eq!(
        respond(&mut store, &Frame::Array(vec![bulk("GET"), Frame::Null])),
        Frame::Error("ERR invalid argument".to_string())
    );
}

#[test]
fn unsupported_command_then_valid_request_on_one_connection() {
    let mut store = Store::new();
    let mut conn = Connection::new();
    conn.receive(&encode(&request(&["DEL", "k"])));
    conn.receive(&encode(&request(&["SET", "k", "v"])));
    conn.receive(&encode(&request(&["GET", "k"])));
    assert_eq!(reply(conn.serve(&mut store)), Frame::Error("ERR unknown command".to_string()));
    assert_eq!(reply(conn.serve(&mut store)), Frame::Simple("OK".to_string()));
    assert_eq!(reply(conn.serve(&mut store)), bulk("v"));
    assert_eq!(conn.serve(&mut store), None);
}

#[test]
fn garbage_gets_error_and_connection_goes_on() {
    let mut store = Store::new();
    let mut conn = Connection::new();
    conn.receive(b"hello");
    assert_eq!(reply(conn.serve(&mut store)), Frame::Error("ERR invalid frame".to_string()));
    conn.receive(&encode(&request(&["GET", "x"])));
    assert_eq!(reply(conn.serve(&mut store)), Frame::Null);
}

#[test]
fn partial_request_waits_for_more() {
    let mut store = Store::new();
    let mut conn = Connection::new();
    let bytes = encode(&request(&["SET", "a", "b"]));
    let (head, tail) = bytes.split_at(5);
    conn.receive(head);
    assert_eq!(conn.serve(&mut store), None);
    conn.receive(tail);
    assert_eq!(reply(conn.serve(&mut store)), Frame::Simple("OK".to_string()));
    assert_eq!(store.get(&"a".to_string()), Some(b"b".to_vec()));
}
