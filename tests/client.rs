use kvstore::client::{get_reply, request_bytes, request_frame, set_reply, ClientError};
use kvstore::codec::{decode, Decoded, FrameBuffer};
use kvstore::command::{parse_command, Command};
use kvstore::frame::Frame;
use kvstore::server::Connection;
use kvstore::store::Store;

#[test]
fn request_frame_shape() {
    let get = Command::Get { key: "hello".to_string() };
    assert_eq!(
        request_frame(&get),
        Frame::Array(vec![Frame::Bulk(b"GET".to_vec()), Frame::Bulk(b"hello".to_vec())])
    );
    let set = Command::Put { key: "k".to_string(), value: vec![9] };
    assert_eq!(
        request_frame(&set),
        Frame::Array(vec![Frame::Bulk(b"SET".to_vec()), Frame::Bulk(b"k".to_vec()), Frame::Bulk(vec![9])])
    );
}

#[test]
fn server_reads_back_the_command() {
    for cmd in [
        Command::Get { key: "ключ".to_string() },
        Command::Put { key: String::new(), value: Vec::new() },
    ] {
        let bytes = request_bytes(&cmd);
        match decode(&bytes) {
            Decoded::Frame(f, _) => assert_eq!(parse_command(&f), Ok(cmd)),
            other => panic!("not a frame: {:?}", other),
        }
    }
}

#[test]
fn get_replies() {
    assert_eq!(get_reply(Frame::Bulk(b"world".to_vec())), Ok(Some(b"world".to_vec())));
    assert_eq!(get_reply(Frame::Null), Ok(None));
    assert_eq!(get_reply(Frame::Error("ERR x".to_string())), Err(ClientError::Server("ERR x".to_string())));
    assert_eq!(get_reply(Frame::Integer(3)), Err(ClientError::UnexpectedFrame));
    assert_eq!(get_reply(Frame::Simple("OK".to_string())), Err(ClientError::UnexpectedFrame));
}

#[test]
fn set_replies() {
    assert_eq!(set_reply(Frame::Simple("OK".to_string())), Ok(()));
    assert_eq!(set_reply(Frame::Simple("QUEUED".to_string())), Err(ClientError::UnexpectedFrame));
    assert_eq!(set_reply(Frame::Error("ERR y".to_string())), Err(ClientError::Server("ERR y".to_string())));
    assert_eq!(set_reply(Frame::Null), Err(ClientError::UnexpectedFrame));
}

fn exchange(conn: &mut Connection, store: &mut Store, request: &[u8]) -> Frame {
    conn.receive(request);
    let response = conn.serve(store).expect("a response");
    let mut input = FrameBuffer::new();
    input.receive(&response);
    match input.next_frame() {
        Decoded::Frame(f, _) => f,
        other => panic!("not a frame: {:?}", other),
    }
}

#[test]
fn end_to_end_in_process() {
    let mut store = Store::new();
    let mut conn = Connection::new();
    let set = Command::Put { key: "hello".to_string(), value: b"world".to_vec() };
    assert_eq!(set_reply(exchange(&mut conn, &mut store, &request_bytes(&set))), Ok(()));
    let get = Command::Get { key: "hello".to_string() };
    assert_eq!(get_reply(exchange(&mut conn, &mut store, &request_bytes(&get))), Ok(Some(b"world".to_vec())));
    let missing = Command::Get { key: "missing".to_string() };
    assert_eq!(get_reply(exchange(&mut conn, &mut store, &request_bytes(&missing))), Ok(None));
    let foo = kvstore::codec::encode(&Frame::Array(vec![Frame::Bulk(b"FOO".to_vec())]));
    assert_eq!(exchange(&mut conn, &mut store, &foo), Frame::Error("ERR unknown command".to_string()));
}
