use respkv::resp::{decode, Value};
use respkv::command::{dispatch, extract_command, unpack_bulk_str, CommandError};
use respkv::engine::{process, Step};
use respkv::store::Store;

fn respond(input: &[u8], store: &mut Store) -> (Vec<u8>, usize) {
    let buffer: Vec<u8> = input.to_vec();
    match process(&buffer, store) {
        Step::Respond(bytes, consumed) => (bytes, consumed),
        Step::NeedMore => panic!("unexpected NeedMore"),
        Step::Close => panic!("unexpected Close"),
    }
}

#[test]
fn scenario_ping() {
    let mut store = Store::new();
    let buffer: Vec<u8> = b"*1\r\n$4\r\nPING\r\n".to_vec();
    let (frame, consumed) = decode(&buffer).unwrap();
    assert_eq!(consumed, buffer.len());
    let response = dispatch(frame, &mut store);
    assert!(matches!(&response, Value::SimpleString(s) if s == &b"PONG".to_vec()));
    assert_eq!(response.serialize(), b"+PONG\r\n".to_vec());
}

#[test]
fn scenario_echo() {
    let mut store = Store::new();
    let (bytes, consumed) = respond(b"*2\r\n$4\r\nECHO\r\n$3\r\nhey\r\n", &mut store);
    assert_eq!(bytes, b"$3\r\nhey\r\n".to_vec());
    assert_eq!(consumed, 23);
}

#[test]
fn scenario_set_then_get() {
    let mut store = Store::new();
    let (bytes, _) = respond(b"*3\r\n$3\r\nSET\r\n$3\r\nfoo\r\n$3\r\nbar\r\n", &mut store);
    assert_eq!(bytes, b"+OK\r\n".to_vec());
    let (bytes, _) = respond(b"*2\r\n$3\r\nGET\r\n$3\r\nfoo\r\n", &mut store);
    assert_eq!(bytes, b"$3\r\nbar\r\n".to_vec());
}

#[test]
fn scenario_get_missing() {
    let mut store = Store::new();
    let (bytes, _) = respond(b"*2\r\n$3\r\nGET\r\n$7\r\nmissing\r\n", &mut store);
    assert_eq!(bytes, b"$-1\r\n".to_vec());
}

#[test]
fn scenario_malformed_bulk_never_panics() {
    let mut store = Store::new();
    let buffer: Vec<u8> = b"$3\r\nab\r\n".to_vec();
    // Eight bytes are a strict prefix of a nine-byte frame: wait.
    assert!(matches!(process(&buffer, &mut store), Step::NeedMore));
    // With the contradiction visible, the connection is closed.
    let buffer: Vec<u8> = b"$3\r\nab\r\n\n".to_vec();
    assert!(matches!(process(&buffer, &mut store), Step::Close));
}

#[test]
fn command_names_are_case_insensitive() {
    let mut store = Store::new();
    let (bytes, _) = respond(b"*1\r\n$4\r\nPiNg\r\n", &mut store);
    assert_eq!(bytes, b"+PONG\r\n".to_vec());
}

#[test]
fn unknown_command_is_answered_not_fatal() {
    let mut store = Store::new();
    let (bytes, _) = respond(b"*1\r\n$3\r\nfoo\r\n", &mut store);
    assert_eq!(bytes, b"-ERR unknown command 'foo'\r\n".to_vec());
    // The connection keeps serving afterwards.
    let (bytes, _) = respond(b"*1\r\n$4\r\nping\r\n", &mut store);
    assert_eq!(bytes, b"+PONG\r\n".to_vec());
}

#[test]
fn arity_and_shape_errors_are_recoverable() {
    let mut store = Store::new();
    let (bytes, _) = respond(b"*1\r\n$4\r\nECHO\r\n", &mut store);
    assert_eq!(bytes, b"-ERR wrong number of arguments\r\n".to_vec());
    let (bytes, _) = respond(b"*2\r\n$3\r\nSET\r\n$1\r\nk\r\n", &mut store);
    assert_eq!(bytes, b"-ERR wrong number of arguments\r\n".to_vec());
    let (bytes, _) = respond(b"+PING\r\n", &mut store);
    assert_eq!(bytes, b"-ERR unexpected command format\r\n".to_vec());
    let (bytes, _) = respond(b"*0\r\n", &mut store);
    assert_eq!(bytes, b"-ERR unexpected command format\r\n".to_vec());
}

#[test]
fn extract_command_splits_name_and_args() {
    let frame = Value::Array(vec![
        Value::BulkString(b"GET".to_vec()),
        Value::BulkString(b"foo".to_vec()),
    ]);
    let (name, args) = extract_command(frame).unwrap();
    assert_eq!(name, b"GET".to_vec());
    assert_eq!(args.len(), 1);
    assert!(matches!(&args[0], Value::BulkString(s) if s == &b"foo".to_vec()));
    assert_eq!(
        extract_command(Value::Integer(1)).unwrap_err(),
        CommandError::UnexpectedFormat
    );
    assert_eq!(
        extract_command(Value::Array(vec![Value::Integer(1)])).unwrap_err(),
        CommandError::ExpectedBulkString
    );
}

#[test]
fn unpack_bulk_str_accepts_only_bulk_strings() {
    assert_eq!(unpack_bulk_str(Value::BulkString(b"x".to_vec())).unwrap(), b"x".to_vec());
    assert_eq!(
        unpack_bulk_str(Value::SimpleString(b"x".to_vec())).unwrap_err(),
        CommandError::ExpectedBulkString
    );
}

#[test]
fn store_set_get_and_overwrite() {
    let mut store = Store::new();
    assert!(store.get(&b"k".to_vec()).is_none());
    store.set(b"k".to_vec(), b"v1".to_vec());
    assert_eq!(store.get(&b"k".to_vec()).unwrap(), b"v1".to_vec());
    store.set(b"k".to_vec(), b"v2".to_vec());
    assert_eq!(store.get(&b"k".to_vec()).unwrap(), b"v2".to_vec());
    store.set(b"other".to_vec(), b"w".to_vec());
    assert_eq!(store.get(&b"k".to_vec()).unwrap(), b"v2".to_vec());
    assert_eq!(store.get(&b"other".to_vec()).unwrap(), b"w".to_vec());
}

#[test]
fn serialized_writes_resolve_to_one_of_the_writers() {
    // Writes of several clients to one key, in the order the store's
    // mutual exclusion happened to admit them.
    let writes: Vec<Vec<u8>> = vec![
        b"w0".to_vec(),
        b"w3".to_vec(),
        b"w1".to_vec(),
        b"w4".to_vec(),
        b"w2".to_vec(),
    ];
    let mut store = Store::new();
    for w in &writes {
        store.set(b"key".to_vec(), w.clone());
    }
    let seen = store.get(&b"key".to_vec()).unwrap();
    assert!(writes.contains(&seen));
    assert_eq!(seen, b"w2".to_vec());
}

#[test]
fn pipelined_requests_consume_frame_by_frame() {
    let mut store = Store::new();
    let mut buffer: Vec<u8> = b"*1\r\n$4\r\nPING\r\n".to_vec();
    buffer.extend_from_slice(b"*2\r\n$4\r\nECHO\r\n$2\r\nhi\r\n");
    let (bytes, consumed) = respond(&buffer, &mut store);
    assert_eq!(bytes, b"+PONG\r\n".to_vec());
    assert_eq!(consumed, 14);
    let rest: Vec<u8> = buffer[consumed..].to_vec();
    let (bytes, consumed) = respond(&rest, &mut store);
    assert_eq!(bytes, b"$2\r\nhi\r\n".to_vec());
    assert_eq!(consumed, rest.len());
}

#[test]
fn chunked_arrival_waits_then_answers() {
    let mut store = Store::new();
    let full: Vec<u8> = b"*2\r\n$3\r\nGET\r\n$3\r\nfoo\r\n".to_vec();
    let mut buffer: Vec<u8> = Vec::new();
    for i in 0..full.len() {
        if i + 1 < full.len() {
            buffer.push(full[i]);
            assert!(matches!(process(&buffer, &mut store), Step::NeedMore));
        }
    }
    buffer.push(full[full.len() - 1]);
    let (bytes, consumed) = respond(&buffer, &mut store);
    assert_eq!(bytes, b"$-1\r\n".to_vec());
    assert_eq!(consumed, full.len());
}
