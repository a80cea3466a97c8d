use resp_kv::resp::parse;
use resp_kv::resp::parse::{
    array, array_length_prefix, bulk_string, bulk_string_length_prefix, integer, resp,
    resp_within, string, string_from_bytes, tagged_line, ParseError, MAX_DEPTH,
};
use resp_kv::resp::value::RespValue;

fn bulk(text: &str) -> RespValue {
    RespValue::BulkString(Some(text.as_bytes().to_vec()))
}

#[test]
fn test_parse_line() {
    let input = b"Hello, World!\r\n";
    let result = parse::line(input);
    assert_eq!(result.unwrap().1, b"Hello, World!");
}

#[test]
fn test_parse_string() {
    let input = b"+OK\r\n";
    let result = resp(input);
    assert_eq!(result.unwrap().1, RespValue::SimpleString("OK".to_string()));
}

#[test]
fn test_parse_integer() {
    let input = b":12345\r\n";
    let result = resp(input);
    assert_eq!(result.unwrap().1, RespValue::Integer(12345));
}

#[test]
fn test_parse_error() {
    let input = b"-ERR some error message\r\n";
    let result = resp(input);
    let value = result.unwrap().1;
    assert_eq!(value, RespValue::Error("ERR some error message".to_string()));
    assert!(matches!(&value, RespValue::Error(text) if text.ends_with("some error message")));
}

#[test]
fn test_parse_length_prefix() {
    let input = b"$6\r\n";
    let result = bulk_string_length_prefix(input);
    assert_eq!(result.unwrap().1, Some(6));
}

#[test]
fn test_parse_bulk_string() {
    let input = b"$12\r\nHello World!\r\n";
    let result = resp(input);
    assert_eq!(result.unwrap().1, bulk("Hello World!"));
}

#[test]
fn test_parse_array() {
    let input = b"*2\r\n$3\r\nfoo\r\n$3\r\nbar\r\n";
    let result = resp(input);
    assert_eq!(
        result.unwrap().1,
        RespValue::Array(Some(vec![bulk("foo"), bulk("bar")]))
    );
}

#[test]
fn parse_reports_bytes_consumed() {
    assert_eq!(resp(b"+OK\r\n").unwrap().0, 5);
    assert_eq!(resp(b"+OK\r\n+NEXT\r\n").unwrap().0, 5);
    assert_eq!(resp(b":12345\r\nrest").unwrap().0, 8);
    assert_eq!(resp(b"$12\r\nHello World!\r\n").unwrap().0, 19);
    assert_eq!(resp(b"*2\r\n$3\r\nfoo\r\n$3\r\nbar\r\n:1\r\n").unwrap().0, 22);
    assert_eq!(parse::line(b"Hello, World!\r\nmore").unwrap().0, 15);
}

#[test]
fn line_states() {
    assert_eq!(parse::line(b""), Err(ParseError::Incomplete));
    assert_eq!(parse::line(b"abc"), Err(ParseError::Incomplete));
    assert_eq!(parse::line(b"abc\r"), Err(ParseError::Incomplete));
    assert_eq!(parse::line(b"abc\rd"), Err(ParseError::Syntax));
    assert_eq!(parse::line(b"abc\n"), Err(ParseError::Syntax));
    assert_eq!(parse::line(b"\r\n"), Ok((2, &b""[..])));
    assert_eq!(parse::line(b"a\r\nb\r\n"), Ok((3, &b"a"[..])));
}

#[test]
fn tagged_line_checks_the_tag() {
    assert_eq!(tagged_line(b"+OK\r\n", b'+'), Ok((5, &b"OK"[..])));
    assert_eq!(tagged_line(b"-OK\r\n", b'+'), Err(ParseError::Syntax));
    assert_eq!(tagged_line(b"", b'+'), Err(ParseError::Incomplete));
    assert_eq!(tagged_line(b"+", b'+'), Err(ParseError::Incomplete));
}

#[test]
fn simple_string_and_error_lines() {
    assert_eq!(string(b"+PONG\r\n"), Ok((7, "PONG")));
    assert_eq!(string(b"+\r\n"), Ok((3, "")));
    assert_eq!(parse::error(b"-WRONGTYPE bad\r\n"), Ok((16, "WRONGTYPE bad")));
    assert_eq!(string(b"-x\r\n"), Err(ParseError::Syntax));
    assert_eq!(parse::error(b"+x\r\n"), Err(ParseError::Syntax));
    assert_eq!(string(b"+PO\nNG\r\n"), Err(ParseError::Syntax));
    assert_eq!(string(b"+PO\rNG\r\n"), Err(ParseError::Syntax));
    assert_eq!(string(b"+PONG"), Err(ParseError::Incomplete));
}

#[test]
fn text_must_be_utf8() {
    assert_eq!(string_from_bytes(b"caf\xc3\xa9"), Ok("caf\u{e9}"));
    assert_eq!(string_from_bytes(b""), Ok(""));
    assert_eq!(string_from_bytes(b"\xff"), Err(ParseError::Syntax));
    assert_eq!(string_from_bytes(b"\xc3"), Err(ParseError::Syntax));
    assert_eq!(string_from_bytes(b"\xed\xa0\x80"), Err(ParseError::Syntax));
    assert_eq!(string(b"+\xff\r\n"), Err(ParseError::Syntax));
    assert_eq!(
        resp(b"+caf\xc3\xa9\r\n"),
        Ok((8, RespValue::SimpleString("caf\u{e9}".to_string())))
    );
}

#[test]
fn integers() {
    assert_eq!(integer(b":0\r\n"), Ok((4, 0)));
    assert_eq!(integer(b":-1\r\n"), Ok((5, -1)));
    assert_eq!(integer(b":+7\r\n"), Ok((5, 7)));
    assert_eq!(integer(b":007\r\n"), Ok((6, 7)));
    assert_eq!(
        integer(b":9223372036854775807\r\n"),
        Ok((22, 9223372036854775807))
    );
    assert_eq!(
        integer(b":-9223372036854775808\r\n"),
        Ok((23, -9223372036854775807 - 1))
    );
    assert_eq!(integer(b":9223372036854775808\r\n"), Err(ParseError::Syntax));
    assert_eq!(integer(b":-9223372036854775809\r\n"), Err(ParseError::Syntax));
    assert_eq!(integer(b":\r\n"), Err(ParseError::Syntax));
    assert_eq!(integer(b":-\r\n"), Err(ParseError::Syntax));
    assert_eq!(integer(b":12a\r\n"), Err(ParseError::Syntax));
    assert_eq!(integer(b": 1\r\n"), Err(ParseError::Syntax));
    assert_eq!(integer(b":\xff\r\n"), Err(ParseError::Syntax));
    assert_eq!(integer(b":12"), Err(ParseError::Incomplete));
}

#[test]
fn length_prefixes() {
    assert_eq!(bulk_string_length_prefix(b"$-1\r\n"), Ok((5, None)));
    assert_eq!(bulk_string_length_prefix(b"$0\r\n"), Ok((4, Some(0))));
    assert_eq!(bulk_string_length_prefix(b"$12\r\nHello"), Ok((5, Some(12))));
    assert_eq!(array_length_prefix(b"*-1\r\n"), Ok((5, None)));
    assert_eq!(array_length_prefix(b"*3\r\n"), Ok((4, Some(3))));
    assert_eq!(bulk_string_length_prefix(b"$-2\r\n"), Err(ParseError::Syntax));
    assert_eq!(bulk_string_length_prefix(b"$-0\r\n"), Err(ParseError::Syntax));
    assert_eq!(bulk_string_length_prefix(b"$+3\r\n"), Err(ParseError::Syntax));
    assert_eq!(bulk_string_length_prefix(b"$-1 \r\n"), Err(ParseError::Syntax));
    assert_eq!(bulk_string_length_prefix(b"$abc\r\n"), Err(ParseError::Syntax));
    assert_eq!(bulk_string_length_prefix(b"$\r\n"), Err(ParseError::Syntax));
    assert_eq!(bulk_string_length_prefix(b"$1 \r\n"), Err(ParseError::Syntax));
    assert_eq!(
        bulk_string_length_prefix(b"$99999999999999999999999999\r\n"),
        Err(ParseError::Syntax)
    );
    assert_eq!(array_length_prefix(b"*-5\r\n"), Err(ParseError::Syntax));
    assert_eq!(array_length_prefix(b"$3\r\n"), Err(ParseError::Syntax));
    assert_eq!(bulk_string_length_prefix(b"$12"), Err(ParseError::Incomplete));
    assert_eq!(bulk_string_length_prefix(b""), Err(ParseError::Incomplete));
}

#[test]
fn bulk_strings() {
    assert_eq!(bulk_string(b"$3\r\nfoo\r\n"), Ok((9, Some(&b"foo"[..]))));
    assert_eq!(bulk_string(b"$0\r\n\r\n"), Ok((6, Some(&b""[..]))));
    assert_eq!(bulk_string(b"$-1\r\n"), Ok((5, None)));
    assert_eq!(
        bulk_string(b"$4\r\n\r\n\x00\xff\r\n"),
        Ok((10, Some(&b"\r\n\x00\xff"[..])))
    );
    assert_eq!(bulk_string(b"$3\r\nfo"), Err(ParseError::Incomplete));
    assert_eq!(bulk_string(b"$3\r\nfoo"), Err(ParseError::Incomplete));
    assert_eq!(bulk_string(b"$3\r\nfoo\r"), Err(ParseError::Incomplete));
    assert_eq!(bulk_string(b"$3\r\nfooX"), Err(ParseError::Syntax));
    assert_eq!(bulk_string(b"$3\r\nfoo\rX"), Err(ParseError::Syntax));
    assert_eq!(bulk_string(b"$3\r\nfooXY"), Err(ParseError::Syntax));
}

#[test]
fn null_and_empty_are_different() {
    assert_eq!(resp(b"$-1\r\n"), Ok((5, RespValue::BulkString(None))));
    assert_eq!(resp(b"$0\r\n\r\n"), Ok((6, RespValue::BulkString(Some(vec![])))));
    assert_eq!(resp(b"*-1\r\n"), Ok((5, RespValue::Array(None))));
    assert_eq!(resp(b"*0\r\n"), Ok((4, RespValue::Array(Some(vec![])))));
}

#[test]
fn declared_length_longer_than_payload_is_a_syntax_error() {
    assert_eq!(resp(b"$3\r\nab\r\n"), Err(ParseError::Syntax));
}

#[test]
fn invalid_tag_is_a_syntax_error() {
    assert_eq!(resp(b"?\r\n"), Err(ParseError::Syntax));
    assert_eq!(resp(b"GET foo\r\n"), Err(ParseError::Syntax));
    assert_eq!(resp(b"\r\n"), Err(ParseError::Syntax));
}

#[test]
fn empty_input_is_incomplete() {
    assert_eq!(resp(b""), Err(ParseError::Incomplete));
}

#[test]
fn arrays_hold_any_type() {
    let input = b"*5\r\n+a\r\n-b\r\n:3\r\n$1\r\nd\r\n*1\r\n$-1\r\n";
    assert_eq!(
        resp(input),
        Ok((
            input.len(),
            RespValue::Array(Some(vec![
                RespValue::SimpleString("a".to_string()),
                RespValue::Error("b".to_string()),
                RespValue::Integer(3),
                bulk("d"),
                RespValue::Array(Some(vec![RespValue::BulkString(None)])),
            ]))
        ))
    );
}

#[test]
fn array_states() {
    assert_eq!(resp(b"*2\r\n$3\r\nfoo\r\n"), Err(ParseError::Incomplete));
    assert_eq!(resp(b"*2\r\n$3\r\nfoo\r\n$3\r\nba"), Err(ParseError::Incomplete));
    assert_eq!(resp(b"*2\r\n$3\r\nfoo\r\n?"), Err(ParseError::Syntax));
    assert_eq!(resp(b"*x\r\n"), Err(ParseError::Syntax));
    assert_eq!(
        array(b"*1\r\n:7\r\n"),
        Ok((8, Some(vec![RespValue::Integer(7)])))
    );
    assert_eq!(array(b"*-1\r\n"), Ok((5, None)));
    assert_eq!(array(b":7\r\n"), Err(ParseError::Syntax));
}

fn nested(levels: usize) -> Vec<u8> {
    let mut input = Vec::new();
    for _ in 0..levels {
        input.extend_from_slice(b"*1\r\n");
    }
    input.extend_from_slice(b":1\r\n");
    input
}

#[test]
fn nesting_is_bounded() {
    assert_eq!(MAX_DEPTH, 32);
    assert!(resp(&nested(32)).is_ok());
    assert_eq!(resp(&nested(33)), Err(ParseError::Syntax));
    assert_eq!(resp(&nested(1000)), Err(ParseError::Syntax));
    assert!(resp_within(&nested(2), 2).is_ok());
    assert_eq!(resp_within(&nested(2), 1), Err(ParseError::Syntax));
    assert_eq!(resp_within(b"*1\r\n:1\r\n", 0), Err(ParseError::Syntax));
    assert_eq!(resp_within(b"*-1\r\n", 0), Ok((5, RespValue::Array(None))));
    assert_eq!(resp_within(b":1\r\n", 0), Ok((4, RespValue::Integer(1))));
}
