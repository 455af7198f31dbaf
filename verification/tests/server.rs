//! The server's dispatch, exercised from outside: requests in, responses
//! out, against a real store.

use kvs::execute;
use kvs::respond;
use kvs::KvsError;
use kvs::KvStore;
use kvs::Request;

fn fresh_store() -> KvStore {
    KvStore::open(Vec::new(), 0).unwrap()
}

#[test]
fn execute_dispatches_to_the_engine() {
    let mut store = fresh_store();
    let set = Request::Put {
        key: "k".to_owned(),
        value: "v".to_owned(),
    };
    assert_eq!(execute(&mut store, set).unwrap(), None);

    let get = Request::Get { key: "k".to_owned() };
    assert_eq!(execute(&mut store, get).unwrap(), Some("v".to_owned()));

    let rm = Request::Rm { key: "k".to_owned() };
    assert_eq!(execute(&mut store, rm).unwrap(), None);

    let get = Request::Get { key: "k".to_owned() };
    assert_eq!(execute(&mut store, get).unwrap(), None);

    let rm = Request::Rm { key: "k".to_owned() };
    assert!(matches!(
        execute(&mut store, rm),
        Err(KvsError::KeyNotFound)
    ));
}

#[test]
fn wire_round_trip_through_the_server() {
    let mut store = fresh_store();
    // the exact bytes a client writes for a set, then for a get
    let out = respond(&mut store, "Set#\r\nkey:+1+k\r\nvalue:+5+hello\r\n\r\n").unwrap();
    assert_eq!(out, "Success#\r\nresult:+0+\r\n\r\n");
    let out = respond(&mut store, "Get#\r\nkey:+1+k\r\n\r\n").unwrap();
    assert_eq!(out, "Success#\r\nresult:+5+hello\r\n\r\n");
    // a client decodes the response it got back
    match kvs::from_str::<kvs::Response>(&out).unwrap() {
        kvs::Response::Success { result } => assert_eq!(result, Some("hello".to_owned())),
        kvs::Response::Fail { .. } => panic!("round trip lost the response"),
    }
}

#[test]
fn failed_command_becomes_a_fail_response() {
    let mut store = fresh_store();
    let out = respond(&mut store, "Rm#\r\nkey:+6+absent\r\n\r\n").unwrap();
    assert_eq!(out, "Fail#\r\nmessage:+13+Key not found\r\n\r\n");
}

#[test]
fn undecodable_request_is_an_error_not_a_response() {
    let mut store = fresh_store();
    assert!(matches!(
        respond(&mut store, "garbage"),
        Err(KvsError::Deserialize(_))
    ));
}

#[test]
fn response_result_splits_success_and_failure() {
    let ok = kvs::Response::Success {
        result: Some("v".to_owned()),
    };
    assert_eq!(kvs::response_result(ok).unwrap(), Some("v".to_owned()));
    let fail = kvs::Response::Fail {
        message: "boom".to_owned(),
    };
    assert!(matches!(
        kvs::response_result(fail),
        Err(KvsError::Server(m)) if m == "boom"
    ));
}

#[test]
fn error_messages_match_the_wire_text() {
    assert_eq!(KvsError::KeyNotFound.message(), "Key not found");
    assert_eq!(KvsError::InValidEngine.message(), "Invalid engine");
    assert_eq!(
        KvsError::Deserialize("EOF".to_owned()).message(),
        "Command deserialize error: EOF"
    );
}
