use resp_kv::resp::{RESPParseError, RESP};

fn bulk(s: &str) -> RESP {
    RESP::BulkString(Some(s.to_string()))
}

fn round_trip(v: RESP) {
    let wire = v.encode();
    let back = RESP::decode(&wire).expect("an encoding decodes");
    assert_eq!(back, v);
}

#[test]
fn round_trip_scalars() {
    round_trip(RESP::SimpleString("OK".to_string()));
    round_trip(RESP::SimpleString(String::new()));
    round_trip(RESP::Error("ERR something went wrong".to_string()));
    round_trip(RESP::Integer(0));
    round_trip(RESP::Integer(42));
    round_trip(RESP::Integer(-17));
    round_trip(RESP::Integer(i64::MAX));
    round_trip(RESP::Integer(i64::MIN));
    round_trip(bulk("hello"));
    round_trip(bulk(""));
    round_trip(bulk("line\r\nbreak"));
    round_trip(bulk("h\u{e9}llo w\u{f6}rld \u{1F600}"));
    round_trip(RESP::BulkString(None));
}

#[test]
fn round_trip_nested_arrays() {
    round_trip(RESP::Array(vec![]));
    round_trip(RESP::Array(vec![bulk("GET"), bulk("key")]));
    let inner = RESP::Array(vec![RESP::Integer(1), bulk("two"), RESP::BulkString(None)]);
    let deeper = RESP::Array(vec![inner.clone(), RESP::Array(vec![])]);
    round_trip(RESP::Array(vec![
        RESP::SimpleString("top".to_string()),
        inner,
        deeper,
        RESP::Error("ERR nested".to_string()),
    ]));
}

#[test]
fn array_encoding_is_recursive() {
    let v = RESP::Array(vec![bulk("ECHO"), RESP::Array(vec![RESP::Integer(-3)])]);
    assert_eq!(v.encode(), "*2\r\n$4\r\nECHO\r\n*1\r\n:-3\r\n");
}

#[test]
fn encode_each_kind() {
    assert_eq!(RESP::SimpleString("PONG".to_string()).encode(), "+PONG\r\n");
    assert_eq!(RESP::Error("ERR bad".to_string()).encode(), "-ERR bad\r\n");
    assert_eq!(RESP::Integer(1000).encode(), ":1000\r\n");
    assert_eq!(RESP::Integer(-9223372036854775808).encode(), ":-9223372036854775808\r\n");
    assert_eq!(bulk("foo").encode(), "$3\r\nfoo\r\n");
}

#[test]
fn bulk_string_length_counts_bytes() {
    let v = bulk("h\u{e9}llo");
    assert_eq!(v.encode(), "$6\r\nh\u{e9}llo\r\n");
    assert_eq!(bulk("\u{1F600}").encode(), "$4\r\n\u{1F600}\r\n");
    assert_eq!(RESP::decode("$6\r\nh\u{e9}llo\r\n").unwrap(), v);
    assert_eq!(RESP::decode("$2\r\n\u{e9}\r\n").unwrap(), bulk("\u{e9}"));
}

#[test]
fn bulk_string_length_must_match_exactly() {
    // five bytes end inside the text: the terminator is not where it should be
    assert!(RESP::decode("$5\r\nh\u{e9}llo\r\n").is_err());
    // one byte ends inside a two-byte character
    assert!(RESP::decode("$1\r\n\u{e9}\r\n").is_err());
    // more bytes declared than the input holds
    assert!(RESP::decode("$10\r\nfoo\r\n").is_err());
}

#[test]
fn null_bulk_string() {
    assert_eq!(RESP::decode("$-1\r\n").unwrap(), RESP::BulkString(None));
    assert_eq!(RESP::BulkString(None).encode(), "$-1\r\n");
}

#[test]
fn decode_each_kind() {
    assert_eq!(RESP::decode("+OK\r\n").unwrap(), RESP::SimpleString("OK".to_string()));
    assert_eq!(RESP::decode("-ERR no\r\n").unwrap(), RESP::Error("ERR no".to_string()));
    assert_eq!(RESP::decode(":-12\r\n").unwrap(), RESP::Integer(-12));
    assert_eq!(RESP::decode(":+7\r\n").unwrap(), RESP::Integer(7));
    assert_eq!(RESP::decode("$0\r\n\r\n").unwrap(), bulk(""));
    assert_eq!(
        RESP::decode("*2\r\n$4\r\nECHO\r\n$2\r\nhi\r\n").unwrap(),
        RESP::Array(vec![bulk("ECHO"), bulk("hi")])
    );
}

#[test]
fn decode_reads_only_the_first_frame() {
    assert_eq!(
        RESP::decode("+first\r\n+second\r\n").unwrap(),
        RESP::SimpleString("first".to_string())
    );
}

#[test]
fn malformed_truncated_array() {
    assert!(RESP::decode("*2\r\n$3\r\nfoo").is_err());
}

#[test]
fn malformed_inputs() {
    let bad = [
        "",
        "+OK",
        "+OK\n",
        "?what\r\n",
        ":abc\r\n",
        ":\r\n",
        ":-\r\n",
        ":9223372036854775808\r\n",
        "$-2\r\n",
        "$x\r\n",
        "$3\r\nfoo",
        "$3\r\nfooXY\r\n",
        "*x\r\n",
        "*2\r\n+one\r\n",
        "+a\rb\r\n",
    ];
    for input in bad.iter() {
        assert!(RESP::decode(input).is_err(), "accepted {:?}", input);
    }
}

#[test]
fn decode_integer_limits() {
    assert_eq!(RESP::decode(":9223372036854775807\r\n").unwrap(), RESP::Integer(i64::MAX));
    assert_eq!(RESP::decode(":-9223372036854775808\r\n").unwrap(), RESP::Integer(i64::MIN));
    assert!(RESP::decode(":-9223372036854775809\r\n").is_err());
}

#[test]
fn decode_error_carries_description_and_input() {
    match RESP::decode("+OK") {
        Err(RESPParseError::InvalidEncoding(m)) => assert!(m.ends_with("+OK")),
        Ok(_) => panic!("accepted a frame without terminator"),
    }
    match RESP::decode("?x\r\n") {
        Err(RESPParseError::InvalidEncoding(m)) => assert!(m.ends_with("?x\r\n")),
        Ok(_) => panic!("accepted an unknown tag"),
    }
}

#[test]
fn to_string_gives_plain_text() {
    assert_eq!(RESP::SimpleString("OK".to_string()).to_string(), "OK");
    assert_eq!(RESP::Error("ERR x".to_string()).to_string(), "ERR x");
    assert_eq!(RESP::Integer(-45).to_string(), "-45");
    assert_eq!(bulk("v").to_string(), "v");
    assert_eq!(RESP::BulkString(None).to_string(), "");
    let a = RESP::Array(vec![bulk("a"), RESP::Integer(1), RESP::Array(vec![bulk("b"), bulk("c")])]);
    assert_eq!(a.to_string(), "a, 1, b, c");
    assert_eq!(RESP::Array(vec![]).to_string(), "");
}

#[test]
fn clone_is_deep() {
    let v = RESP::Array(vec![bulk("x"), RESP::Array(vec![RESP::Integer(5)])]);
    let c = v.clone();
    assert_eq!(c, v);
    assert_eq!(v.duplicate(), v);
}
