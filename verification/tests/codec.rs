//! The wire codec, exercised from outside: encoding, decoding, and their
//! round trips.

use kvs::from_str;
use kvs::to_string;
use kvs::KvsError;
use kvs::Request;
use kvs::Response;

#[test]
fn ser_test_request() {
    let r = Request::Put {
        key: "hello".to_owned(),
        value: "world".to_owned(),
    };
    let s = "Set#\r\nkey:+5+hello\r\nvalue:+5+world\r\n\r\n";
    println!("{}", to_string(&r).unwrap());

    assert_eq!(to_string(&r).unwrap(), s.to_owned());
}

#[test]
fn de_test_request() {
    let r = Request::Put {
        key: "hello".to_owned(),
        value: "world".to_owned(),
    };
    let s = "Set#\r\nkey:+5+hello\r\nvalue:+5+world\r\n\r\n";
    println!("{:?}", r);
    println!("{:?}", from_str::<Request>(s));

    assert_eq!(r, from_str::<Request>(s).unwrap());
}

#[test]
fn get_and_rm_requests_round_trip() {
    let g = Request::Get {
        key: "hello".to_owned(),
    };
    let encoded = to_string(&g).unwrap();
    assert_eq!(encoded, "Get#\r\nkey:+5+hello\r\n\r\n");
    assert_eq!(from_str::<Request>(&encoded).unwrap(), g);

    let rm = Request::Rm {
        key: "hello".to_owned(),
    };
    let encoded = to_string(&rm).unwrap();
    assert_eq!(encoded, "Rm#\r\nkey:+5+hello\r\n\r\n");
    assert_eq!(from_str::<Request>(&encoded).unwrap(), rm);
}

#[test]
fn responses_round_trip() {
    let hit = Response::Success {
        result: Some("value1".to_owned()),
    };
    let encoded = to_string(&hit).unwrap();
    assert_eq!(encoded, "Success#\r\nresult:+6+value1\r\n\r\n");
    assert_eq!(from_str::<Response>(&encoded).unwrap(), hit);

    let miss = Response::Success { result: None };
    let encoded = to_string(&miss).unwrap();
    assert_eq!(encoded, "Success#\r\nresult:+0+\r\n\r\n");
    assert_eq!(from_str::<Response>(&encoded).unwrap(), miss);

    let fail = Response::Fail {
        message: "Key not found".to_owned(),
    };
    let encoded = to_string(&fail).unwrap();
    assert_eq!(encoded, "Fail#\r\nmessage:+13+Key not found\r\n\r\n");
    assert_eq!(from_str::<Response>(&encoded).unwrap(), fail);
}

#[test]
fn empty_string_result_reads_back_as_absent() {
    // `+0+` encodes both an absent result and an empty one; the decoder
    // reads it as absent, as the reference implementation defines it.
    let some_empty = Response::Success {
        result: Some(String::new()),
    };
    let encoded = to_string(&some_empty).unwrap();
    assert_eq!(encoded, "Success#\r\nresult:+0+\r\n\r\n");
    assert_eq!(
        from_str::<Response>(&encoded).unwrap(),
        Response::Success { result: None }
    );
}

#[test]
fn values_with_separators_round_trip() {
    let tricky = Request::Put {
        key: "a\r\nb".to_owned(),
        value: "x+7+#\ny".to_owned(),
    };
    let encoded = to_string(&tricky).unwrap();
    assert_eq!(from_str::<Request>(&encoded).unwrap(), tricky);
}

#[test]
fn non_ascii_round_trip_uses_byte_lengths() {
    let r = Request::Put {
        key: "clé".to_owned(),
        value: "日本語".to_owned(),
    };
    let encoded = to_string(&r).unwrap();
    // `clé` is four bytes of UTF-8, `日本語` nine.
    assert_eq!(encoded, "Set#\r\nkey:+4+clé\r\nvalue:+9+日本語\r\n\r\n");
    assert_eq!(from_str::<Request>(&encoded).unwrap(), r);
}

#[test]
fn decode_errors() {
    // no tag
    assert!(matches!(
        from_str::<Request>("nonsense"),
        Err(KvsError::Deserialize(_))
    ));
    // empty input
    assert!(matches!(
        from_str::<Request>(""),
        Err(KvsError::Deserialize(_))
    ));
    // truncated value
    assert!(matches!(
        from_str::<Request>("Set#\r\nkey:+5+hel"),
        Err(KvsError::Deserialize(_))
    ));
    // trailing characters after a complete request
    assert!(matches!(
        from_str::<Request>("Get#\r\nkey:+5+hello\r\n\r\nextra"),
        Err(KvsError::Deserialize(_))
    ));
    // length is not a number
    assert!(matches!(
        from_str::<Request>("Get#\r\nkey:+x+hello\r\n\r\n"),
        Err(KvsError::Deserialize(_))
    ));
    // a length that splits a multi-byte character leaves invalid UTF-8
    assert!(matches!(
        from_str::<Request>("Get#\r\nkey:+1+é\r\n\r\n"),
        Err(KvsError::Deserialize(_))
    ));
    // wrong field name
    assert!(matches!(
        from_str::<Request>("Get#\r\nkye:+5+hello\r\n\r\n"),
        Err(KvsError::Deserialize(_))
    ));
}
