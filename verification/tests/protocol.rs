use kvs::client::{
    frame_request, get_request, get_result, remove_request, remove_result, set_request, set_result,
};
use kvs::common::{GetRequest, RemoveRequest, Request, Response, SetRequest};
use kvs::inmem::InMemEngine;
use kvs::engine::{removal, stored_value};
use kvs::server::{
    get_response, handle_request, invalid_request, parse_request, remove_response, set_response,
    Command,
};
use kvs::{KvStore, KvsEngine, KvsError};

#[test]
fn requests_carry_the_bytes_of_key_and_value() {
    assert_eq!(get_request("a"), Request::Get(GetRequest { key: b"a".to_vec() }));
    assert_eq!(
        set_request("a", "1"),
        Request::Put(SetRequest { key: b"a".to_vec(), value: b"1".to_vec() })
    );
    assert_eq!(remove_request("é"), Request::Remove(RemoveRequest { key: vec![0xc3, 0xa9] }));
}

#[test]
fn request_ends_with_a_newline() {
    assert_eq!(frame_request(vec![1, 2, 3]), vec![1, 2, 3, b'\n']);
    assert_eq!(frame_request(Vec::new()), vec![b'\n']);
}

#[test]
fn server_session_over_the_log_store() {
    let mut engine = KvStore::open(Vec::new()).unwrap();
    assert_eq!(
        handle_request(&mut engine, set_request("a", "1")),
        Response::Success(b"SET operation successful".to_vec())
    );
    assert_eq!(
        handle_request(&mut engine, set_request("b", "2")),
        Response::Success(b"SET operation successful".to_vec())
    );
    assert_eq!(handle_request(&mut engine, get_request("a")), Response::Success(b"1".to_vec()));
    assert_eq!(
        handle_request(&mut engine, get_request("c")),
        Response::Success(b"Key not found".to_vec())
    );
    assert_eq!(
        handle_request(&mut engine, remove_request("c")),
        Response::Error("Key not found".to_string())
    );
    assert_eq!(
        handle_request(&mut engine, remove_request("a")),
        Response::Success(b"REMOVE operation successful".to_vec())
    );
    assert_eq!(
        handle_request(&mut engine, get_request("a")),
        Response::Success(b"Key not found".to_vec())
    );
}

#[test]
fn server_session_over_the_memory_engine() {
    let mut engine = InMemEngine::open();
    handle_request(&mut engine, set_request("a", "1"));
    handle_request(&mut engine, set_request("a", "2"));
    assert_eq!(handle_request(&mut engine, get_request("a")), Response::Success(b"2".to_vec()));
    assert_eq!(
        handle_request(&mut engine, remove_request("zz")),
        Response::Error("Key not found".to_string())
    );
}

#[test]
fn request_that_is_not_text_is_answered_with_an_error() {
    let mut engine = KvStore::open(Vec::new()).unwrap();
    let bad = Request::Put(SetRequest { key: vec![0xff, 0xfe], value: b"v".to_vec() });
    assert_eq!(
        handle_request(&mut engine, bad),
        Response::Error("Malformed record or message".to_string())
    );
    let bad = Request::Get(GetRequest { key: vec![0xc3] });
    assert!(matches!(handle_request(&mut engine, bad), Response::Error(_)));
    assert_eq!(engine.segment_count(), 1);
}

#[test]
fn refused_write_is_answered_with_its_reason() {
    let mut engine = KvStore::open(Vec::new()).unwrap();
    assert_eq!(
        handle_request(&mut engine, set_request("", "v")),
        Response::Error("Key must not be empty".to_string())
    );
    assert_eq!(
        handle_request(&mut engine, set_request("k", "rm")),
        Response::Error("Value is reserved".to_string())
    );
}

#[test]
fn responses_are_made_from_the_answer_of_the_engine() {
    assert_eq!(get_response(Ok(Some("v".to_string()))), Response::Success(b"v".to_vec()));
    assert_eq!(get_response(Ok(None)), Response::Success(b"Key not found".to_vec()));
    assert_eq!(
        get_response(Err(KvsError::Io("disk full".to_string()))),
        Response::Error("disk full".to_string())
    );
    assert_eq!(set_response(Ok(())), Response::Success(b"SET operation successful".to_vec()));
    assert_eq!(
        set_response(Err(KvsError::Exhausted)),
        Response::Error("Log cannot grow any further".to_string())
    );
    assert_eq!(
        remove_response(Ok(())),
        Response::Success(b"REMOVE operation successful".to_vec())
    );
    assert_eq!(
        remove_response(Err(KvsError::KeyNotFound)),
        Response::Error("Key not found".to_string())
    );
    assert_eq!(
        invalid_request("unexpected end"),
        Response::Error("Invalid request: unexpected end".to_string())
    );
}

#[test]
fn client_reads_the_value_from_a_success() {
    assert_eq!(get_result(Response::Success(b"1".to_vec())).unwrap(), Some("1".to_string()));
    assert_eq!(
        get_result(Response::Success(b"Key not found".to_vec())).unwrap(),
        Some("Key not found".to_string())
    );
    assert!(matches!(get_result(Response::Success(vec![0xff])), Err(KvsError::Codec)));
}

#[test]
fn client_hands_on_the_error_of_the_server() {
    match get_result(Response::Error("Key not found".to_string())) {
        Err(KvsError::Remote(text)) => assert_eq!(text, "Key not found"),
        other => panic!("{:?}", other),
    }
    match set_result(Response::Error("boom".to_string())) {
        Err(KvsError::Remote(text)) => assert_eq!(text, "boom"),
        other => panic!("{:?}", other),
    }
    match remove_result(Response::Error("Key not found".to_string())) {
        Err(KvsError::Remote(text)) => assert_eq!(text, "Key not found"),
        other => panic!("{:?}", other),
    }
}

#[test]
fn client_takes_a_success_for_done() {
    assert!(set_result(Response::Success(b"SET operation successful".to_vec())).is_ok());
    assert!(remove_result(Response::Success(b"REMOVE operation successful".to_vec())).is_ok());
    assert!(matches!(remove_result(Response::Success(vec![0x80])), Err(KvsError::Codec)));
}

#[test]
fn error_texts() {
    assert_eq!(KvsError::KeyNotFound.message(), "Key not found");
    assert_eq!(KvsError::Codec.message(), "Malformed record or message");
    assert_eq!(KvsError::InvalidKey.message(), "Key must not be empty");
    assert_eq!(KvsError::ReservedValue.message(), "Value is reserved");
    assert_eq!(KvsError::Exhausted.message(), "Log cannot grow any further");
    assert_eq!(KvsError::Io("io".to_string()).message(), "io");
    assert_eq!(KvsError::Remote("remote".to_string()).message(), "remote");
}

#[test]
fn memory_engine_gets_sets_and_removes() {
    let mut engine = InMemEngine::open();
    assert_eq!(engine.get("k".to_string()).unwrap(), None);
    engine.set("k".to_string(), "v1".to_string()).unwrap();
    assert_eq!(engine.get("k".to_string()).unwrap(), Some("v1".to_string()));
    engine.set("k".to_string(), "v2".to_string()).unwrap();
    engine.set("other".to_string(), "o".to_string()).unwrap();
    assert_eq!(engine.get("k".to_string()).unwrap(), Some("v2".to_string()));
    assert!(engine.remove("k".to_string()).is_ok());
    assert_eq!(engine.get("k".to_string()).unwrap(), None);
    assert_eq!(engine.get("other".to_string()).unwrap(), Some("o".to_string()));
    assert!(matches!(engine.remove("k".to_string()), Err(KvsError::KeyNotFound)));
}

#[test]
fn request_is_read_as_text() {
    assert_eq!(parse_request(get_request("a")).unwrap(), Command::Get("a".to_string()));
    assert_eq!(
        parse_request(set_request("ключ", "значение")).unwrap(),
        Command::Put("ключ".to_string(), "значение".to_string())
    );
    assert_eq!(parse_request(remove_request("a")).unwrap(), Command::Remove("a".to_string()));
}

#[test]
fn request_with_other_bytes_is_malformed() {
    let bad = Request::Remove(RemoveRequest { key: vec![0xe2, 0x82] });
    assert!(matches!(parse_request(bad), Err(KvsError::Codec)));
    let bad = Request::Put(SetRequest { key: b"k".to_vec(), value: vec![0xf8] });
    assert!(matches!(parse_request(bad), Err(KvsError::Codec)));
}

#[test]
fn stored_bytes_are_read_as_text() {
    assert_eq!(stored_value(Some(b"v".to_vec())).unwrap(), Some("v".to_string()));
    assert_eq!(stored_value(Some(Vec::new())).unwrap(), Some(String::new()));
    assert_eq!(stored_value(None).unwrap(), None);
    assert!(matches!(stored_value(Some(vec![0xff])), Err(KvsError::Codec)));
}

#[test]
fn removal_of_a_missing_key_fails() {
    assert!(removal(true).is_ok());
    assert!(matches!(removal(false), Err(KvsError::KeyNotFound)));
}
