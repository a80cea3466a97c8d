use resp_kv::resp::parse::{resp, ParseError};
use resp_kv::resp::value::{holds_no_line_break, push_bytes, push_crlf, RespValue};

fn bulk(text: &str) -> RespValue {
    RespValue::BulkString(Some(text.as_bytes().to_vec()))
}

fn samples() -> Vec<RespValue> {
    vec![
        RespValue::SimpleString("OK".to_string()),
        RespValue::SimpleString(String::new()),
        RespValue::SimpleString("caf\u{e9} \u{1f600}".to_string()),
        RespValue::Error("ERR unknown command".to_string()),
        RespValue::Integer(0),
        RespValue::Integer(-42),
        RespValue::Integer(i64::MAX),
        RespValue::Integer(i64::MIN),
        RespValue::BulkString(None),
        RespValue::BulkString(Some(vec![])),
        bulk("bar"),
        RespValue::BulkString(Some(vec![0, 13, 10, 255, 36, 42])),
        RespValue::Array(None),
        RespValue::Array(Some(vec![])),
        RespValue::Array(Some(vec![bulk("SET"), bulk("foo"), bulk("bar")])),
        RespValue::Array(Some(vec![
            RespValue::Integer(1),
            RespValue::Array(Some(vec![
                RespValue::SimpleString("a".to_string()),
                RespValue::Array(None),
                RespValue::Array(Some(vec![RespValue::BulkString(None)])),
            ])),
            RespValue::Error("e".to_string()),
        ])),
    ]
}

#[test]
fn serialize_gives_exact_bytes() {
    assert_eq!(RespValue::SimpleString("OK".to_string()).serialize(), b"+OK\r\n".to_vec());
    assert_eq!(
        RespValue::Error("ERR bad".to_string()).serialize(),
        b"-ERR bad\r\n".to_vec()
    );
    assert_eq!(RespValue::Integer(12345).serialize(), b":12345\r\n".to_vec());
    assert_eq!(RespValue::Integer(-7).serialize(), b":-7\r\n".to_vec());
    assert_eq!(bulk("bar").serialize(), b"$3\r\nbar\r\n".to_vec());
    assert_eq!(
        bulk("Hello World!").serialize(),
        b"$12\r\nHello World!\r\n".to_vec()
    );
    assert_eq!(RespValue::BulkString(Some(vec![])).serialize(), b"$0\r\n\r\n".to_vec());
    assert_eq!(RespValue::BulkString(None).serialize(), b"$-1\r\n".to_vec());
    assert_eq!(RespValue::Array(None).serialize(), b"*-1\r\n".to_vec());
    assert_eq!(RespValue::Array(Some(vec![])).serialize(), b"*0\r\n".to_vec());
    assert_eq!(
        RespValue::Array(Some(vec![bulk("foo"), bulk("bar")])).serialize(),
        b"*2\r\n$3\r\nfoo\r\n$3\r\nbar\r\n".to_vec()
    );
    assert_eq!(
        RespValue::Array(Some(vec![
            RespValue::Integer(1),
            RespValue::Array(Some(vec![RespValue::SimpleString("a".to_string())])),
        ]))
        .serialize(),
        b"*2\r\n:1\r\n*1\r\n+a\r\n".to_vec()
    );
}

#[test]
fn write_to_appends() {
    let mut out = b"+A\r\n".to_vec();
    RespValue::Integer(5).write_to(&mut out);
    bulk("x").write_to(&mut out);
    assert_eq!(out, b"+A\r\n:5\r\n$1\r\nx\r\n".to_vec());
}

#[test]
fn byte_helpers_append() {
    let mut out = b"a".to_vec();
    push_bytes(&mut out, b"bc");
    push_crlf(&mut out);
    push_bytes(&mut out, b"");
    assert_eq!(out, b"abc\r\n".to_vec());
}

#[test]
fn parse_undoes_serialize() {
    for value in samples() {
        let bytes = value.serialize();
        assert_eq!(resp(&bytes), Ok((bytes.len(), value)));
    }
}

#[test]
fn parse_ignores_what_follows_a_value() {
    for value in samples() {
        let mut bytes = value.serialize();
        let length = bytes.len();
        bytes.extend_from_slice(b"*1\r\n$4\r\nPING\r\n");
        assert_eq!(resp(&bytes), Ok((length, value)));
    }
}

#[test]
fn every_strict_prefix_is_incomplete() {
    for value in samples() {
        let bytes = value.serialize();
        for cut in 0..bytes.len() {
            assert_eq!(resp(&bytes[..cut]), Err(ParseError::Incomplete));
        }
    }
}

#[test]
fn a_syntax_error_stays_when_bytes_follow() {
    let bad: Vec<&[u8]> = vec![b"?", b"+a\nb", b"$3\r\nab\r\n", b"*1\r\n$x\r\n", b":1a\r\n"];
    for input in bad {
        assert_eq!(resp(input), Err(ParseError::Syntax));
        let mut longer = input.to_vec();
        longer.extend_from_slice(b"\r\n+OK\r\n");
        assert_eq!(resp(&longer), Err(ParseError::Syntax));
    }
}

#[test]
fn line_breaks_are_found() {
    assert!(holds_no_line_break(b""));
    assert!(holds_no_line_break(b"ERR unknown command"));
    assert!(!holds_no_line_break(b"a\rb"));
    assert!(!holds_no_line_break(b"a\nb"));
    assert!(!holds_no_line_break(b"ab\r\n"));
}

#[test]
fn samples_are_well_formed() {
    for value in samples() {
        assert!(value.is_well_formed());
        assert!(value.within_depth(32));
    }
}

#[test]
fn text_with_a_line_break_is_not_well_formed() {
    assert!(!RespValue::SimpleString("a\r\nb".to_string()).is_well_formed());
    assert!(!RespValue::Error("a\nb".to_string()).is_well_formed());
    assert!(!RespValue::SimpleString("\r".to_string()).is_well_formed());
    assert!(RespValue::BulkString(Some(b"a\r\nb".to_vec())).is_well_formed());
    let inside = RespValue::Array(Some(vec![
        RespValue::Integer(1),
        RespValue::Array(Some(vec![RespValue::Error("x\ny".to_string())])),
    ]));
    assert!(!inside.is_well_formed());
    let bytes = RespValue::SimpleString("a\r\nb".to_string()).serialize();
    assert_eq!(bytes, b"+a\r\nb\r\n".to_vec());
    assert_eq!(
        resp(&bytes),
        Ok((4, RespValue::SimpleString("a".to_string())))
    );
}

#[test]
fn depth_counts_nested_arrays() {
    let flat = RespValue::Integer(1);
    assert!(flat.within_depth(0));
    assert!(RespValue::Array(None).within_depth(0));
    let empty = RespValue::Array(Some(vec![]));
    assert!(!empty.within_depth(0));
    assert!(empty.within_depth(1));
    let two = RespValue::Array(Some(vec![
        RespValue::Integer(1),
        RespValue::Array(Some(vec![RespValue::BulkString(None)])),
        RespValue::Array(None),
    ]));
    assert!(!two.within_depth(1));
    assert!(two.within_depth(2));
    assert!(two.within_depth(3));
}

#[test]
fn value_nested_too_deep_does_not_read_back() {
    let mut value = RespValue::Integer(1);
    for _ in 0..33 {
        value = RespValue::Array(Some(vec![value]));
    }
    assert!(value.is_well_formed());
    assert!(value.within_depth(33));
    assert!(!value.within_depth(32));
    assert_eq!(resp(&value.serialize()), Err(ParseError::Syntax));
}
