//! The store, the command layer, and a full client/server exchange run
//! through the codec and the streaming reader.
use redis::{respond, response_count, response_value, Command, Frame, FrameBuffer, ReadOutcome, DB};

#[test]
fn test_store_insert_get_remove() {
    let mut db = DB::new();
    assert_eq!(db.get(&b"foo".to_vec()), None);
    assert_eq!(db.insert(b"foo".to_vec(), b"bar".to_vec()), None);
    assert_eq!(db.get(&b"foo".to_vec()), Some(b"bar".to_vec()));
    assert_eq!(db.insert(b"foo".to_vec(), b"baz".to_vec()), Some(b"bar".to_vec()));
    assert_eq!(db.get(&b"foo".to_vec()), Some(b"baz".to_vec()));
    assert_eq!(db.remove(&b"foo".to_vec()), Some(b"baz".to_vec()));
    assert_eq!(db.get(&b"foo".to_vec()), None);
    assert_eq!(db.remove(&b"foo".to_vec()), None);
}

#[test]
fn test_store_set_overwrites() {
    let mut db = DB::new();
    db.set(b"k".to_vec(), b"v1".to_vec());
    db.set(b"k".to_vec(), b"v2".to_vec());
    assert_eq!(db.get(&b"k".to_vec()), Some(b"v2".to_vec()));
    db.set(b"k2".to_vec(), b"w".to_vec());
    assert_eq!(db.get(&b"k2".to_vec()), Some(b"w".to_vec()));
    assert_eq!(db.get(&b"k".to_vec()), Some(b"v2".to_vec()));
}

#[test]
fn test_command_to_frame() {
    let cmd = Command::set(b"foo".to_vec(), b"bar".to_vec());
    assert_eq!(cmd.to_frame().serialize(), b"*3\r\n$3\r\nSET\r\n$3\r\nfoo\r\n$3\r\nbar\r\n".to_vec());
    let cmd = Command::get(b"foo".to_vec());
    assert_eq!(cmd.to_frame().serialize(), b"*2\r\n$3\r\nGET\r\n$3\r\nfoo\r\n".to_vec());
    let cmd = Command::del(b"foo".to_vec());
    assert_eq!(cmd.to_frame().serialize(), b"*2\r\n$3\r\nDEL\r\n$3\r\nfoo\r\n".to_vec());
}

#[test]
fn test_parse_command_round_trip() {
    let cmd = Command::set(b"a".to_vec(), b"b".to_vec());
    assert_eq!(Command::parse_command(&cmd.to_frame()), Some(Command::set(b"a".to_vec(), b"b".to_vec())));
    let cmd = Command::get(b"a".to_vec());
    assert_eq!(Command::parse_command(&cmd.to_frame()), Some(Command::get(b"a".to_vec())));
    let cmd = Command::del(b"a".to_vec());
    assert_eq!(Command::parse_command(&cmd.to_frame()), Some(Command::del(b"a".to_vec())));
}

#[test]
fn test_parse_command_rejects_other_frames() {
    assert_eq!(Command::parse_command(&Frame::Simple(b"SET".to_vec())), None);
    assert_eq!(Command::parse_command(&Frame::Array(vec![])), None);
    assert_eq!(
        Command::parse_command(&Frame::Array(vec![Frame::Bulk(b"SET".to_vec())])),
        None
    );
    assert_eq!(
        Command::parse_command(&Frame::Array(vec![
            Frame::Bulk(b"PUT".to_vec()),
            Frame::Bulk(b"k".to_vec()),
            Frame::Bulk(b"v".to_vec()),
        ])),
        None
    );
    assert_eq!(
        Command::parse_command(&Frame::Array(vec![
            Frame::Simple(b"SET".to_vec()),
            Frame::Bulk(b"k".to_vec()),
            Frame::Bulk(b"v".to_vec()),
        ])),
        None
    );
}

#[test]
fn test_respond_illegal_command() {
    let mut db = DB::new();
    let reply = respond(&mut db, &Frame::Integer(5));
    assert_eq!(reply, Frame::Error(b"Illegal command".to_vec()));
}

#[test]
fn test_respond_get_missing_key() {
    let mut db = DB::new();
    let request = Command::get(b"nope".to_vec()).to_frame();
    let reply = respond(&mut db, &request);
    assert_eq!(reply, Frame::Error(b"Key not found".to_vec()));
}

/// One direction of a conversation: bytes written by one side arrive,
/// possibly chunked, at the other side's reader.
fn deliver(buf: &mut FrameBuffer, bytes: &Vec<u8>) -> Frame {
    buf.feed(bytes);
    match buf.try_read_frame() {
        ReadOutcome::Frame(f) => f,
        other => panic!("expected a frame, got {:?}", other),
    }
}

#[test]
fn test_end_to_end_session() {
    // Server state.
    let mut db = DB::new();
    let mut server_in = FrameBuffer::new();
    let mut client_in = FrameBuffer::new();

    // SET foo bar -> Simple("OK")
    let request = Command::set(b"foo".to_vec(), b"bar".to_vec()).to_frame();
    let at_server = deliver(&mut server_in, &request.serialize());
    let reply = respond(&mut db, &at_server);
    let at_client = deliver(&mut client_in, &reply.serialize());
    assert_eq!(at_client, Frame::Simple(b"OK".to_vec()));

    // GET foo -> Bulk("bar")
    let request = Command::get(b"foo".to_vec()).to_frame();
    let at_server = deliver(&mut server_in, &request.serialize());
    let reply = respond(&mut db, &at_server);
    let at_client = deliver(&mut client_in, &reply.serialize());
    assert_eq!(response_value(Some(at_client)), Some(b"bar".to_vec()));

    // DEL foo -> Integer(1)
    let request = Command::del(b"foo".to_vec()).to_frame();
    let at_server = deliver(&mut server_in, &request.serialize());
    let reply = respond(&mut db, &at_server);
    let at_client = deliver(&mut client_in, &reply.serialize());
    assert_eq!(response_count(Some(at_client)), Some(1));

    // DEL foo again -> Integer(0)
    let request = Command::del(b"foo".to_vec()).to_frame();
    let at_server = deliver(&mut server_in, &request.serialize());
    let reply = respond(&mut db, &at_server);
    let at_client = deliver(&mut client_in, &reply.serialize());
    assert_eq!(response_count(Some(at_client)), Some(0));

    // GET foo after deletion -> the store's not-found error reply
    let request = Command::get(b"foo".to_vec()).to_frame();
    let at_server = deliver(&mut server_in, &request.serialize());
    let reply = respond(&mut db, &at_server);
    let at_client = deliver(&mut client_in, &reply.serialize());
    assert_eq!(at_client, Frame::Error(b"Key not found".to_vec()));
    assert_eq!(response_value(Some(at_client)), None);
}

#[test]
fn test_response_interpreters() {
    assert_eq!(response_value(Some(Frame::Bulk(b"x".to_vec()))), Some(b"x".to_vec()));
    assert_eq!(response_value(Some(Frame::Simple(b"x".to_vec()))), None);
    assert_eq!(response_value(None), None);
    assert_eq!(response_count(Some(Frame::Integer(3))), Some(3));
    assert_eq!(response_count(Some(Frame::Null)), None);
    assert_eq!(response_count(None), None);
}
