//! Parsing undoes encoding: the laws that tie the parser to the encoder.

use crate::resp::decimal::{
    digits_of, integer_of_text, integer_text, is_digit, lemma_digits_of, size_of_text,
    DecimalError,
};
use crate::resp::framing::{lemma_value_bounds, lemma_value_settled};
use crate::resp::parse::{
    null_length, parse_elements, parse_value, scan_line, spec_line, spec_payload,
    spec_tagged_line, ParseError,
};
use crate::resp::value::{
    crlf, depth, depth_from, encode, encode_from, is_line_text, lemma_depth_from, well_formed,
    Resp, CR, LF, TAG_ARRAY, TAG_BULK, TAG_ERROR, TAG_INTEGER, TAG_SIMPLE,
};
use vstd::prelude::*;
use vstd::utf8::{encode_utf8, encode_utf8_decode_utf8, encode_utf8_valid_utf8};

verus! {

proof fn lemma_scan_text(text: Seq<u8>, rest: Seq<u8>, from: int)
    requires
        is_line_text(text),
        0 <= from <= text.len(),
    ensures
        scan_line(text + crlf() + rest, from) == Ok::<int, ParseError>(text.len() as int),
    decreases text.len() - from,
{
    let s = text + crlf() + rest;
    if from < text.len() {
        assert(s[from] == text[from]);
        lemma_scan_text(text, rest, from + 1);
    } else {
        assert(s[from] == CR);
        assert(s[from + 1] == LF);
    }
}

/// A line of text followed by CRLF reads back as that text, whatever follows.
pub proof fn lemma_frame_line(text: Seq<u8>, rest: Seq<u8>)
    requires
        is_line_text(text),
    ensures
        spec_line(text + crlf() + rest) == Ok::<_, ParseError>(((text.len() + 2) as nat, text)),
{
    lemma_scan_text(text, rest, 0);
    assert((text + crlf() + rest).subrange(0, text.len() as int) =~= text);
}

/// A tag, a line of text and CRLF read back as that text, whatever follows.
pub proof fn lemma_frame_tagged(tag: u8, text: Seq<u8>, rest: Seq<u8>)
    requires
        is_line_text(text),
    ensures
        spec_tagged_line(seq![tag] + text + crlf() + rest, tag) == Ok::<_, ParseError>(
            ((text.len() + 3) as nat, text),
        ),
{
    let s = seq![tag] + text + crlf() + rest;
    assert(s.skip(1) =~= text + crlf() + rest);
    assert(s[0] == tag);
    lemma_frame_line(text, rest);
}

/// The digits of a number hold neither CR nor LF, do not read as `-1` and
/// do not begin with a sign.
proof fn lemma_digits_are_line_text(n: nat)
    ensures
        is_line_text(digits_of(n)),
        digits_of(n) != null_length(),
        digits_of(n)[0] != 0x2bu8,
        digits_of(n)[0] != 0x2du8,
{
    lemma_digits_of(n);
    let d = digits_of(n);
    assert forall|i: int| 0 <= i < d.len() implies #[trigger] d[i] != CR && d[i] != LF by {
        assert(is_digit(d[i]));
    }
    assert(is_digit(d[0]));
    assert(null_length()[0] == 0x2du8);
}

/// The text of a size reads back as that size.
pub proof fn lemma_size_round_trip(n: nat)
    requires
        n <= usize::MAX,
    ensures
        size_of_text(digits_of(n)) == Ok::<usize, DecimalError>(n as usize),
{
    lemma_digits_of(n);
    lemma_digits_are_line_text(n);
}

/// The text of an integer reads back as that integer.
pub proof fn lemma_integer_round_trip(n: i64)
    ensures
        integer_of_text(integer_text(n as int)) == Ok::<i64, DecimalError>(n),
        is_line_text(integer_text(n as int)),
{
    let text = integer_text(n as int);
    if n < 0 {
        let m = (-n) as nat;
        lemma_digits_of(m);
        lemma_digits_are_line_text(m);
        assert(text.skip(1) =~= digits_of(m));
        assert(text[0] == 0x2du8);
        assert forall|i: int| 0 <= i < text.len() implies #[trigger] text[i] != CR && text[i]
            != LF by {
            if i > 0 {
                assert(text[i] == digits_of(m)[i - 1]);
            }
        }
    } else {
        lemma_digits_of(n as nat);
        lemma_digits_are_line_text(n as nat);
    }
}

/// The encoding of a value reads back as that value and is used up exactly,
/// whatever bytes follow it.
pub proof fn lemma_frame_value(v: Resp, rest: Seq<u8>, limit: nat)
    requires
        well_formed(v),
        depth(v) <= limit,
    ensures
        parse_value(encode(v) + rest, limit) == Ok::<_, ParseError>((encode(v).len(), v)),
    decreases v, 0nat,
{
    let s = encode(v) + rest;
    match v {
        Resp::SimpleString(text) => {
            let bytes = encode_utf8(text);
            assert(s =~= seq![TAG_SIMPLE] + bytes + crlf() + rest);
            lemma_frame_tagged(TAG_SIMPLE, bytes, rest);
            encode_utf8_valid_utf8(text);
            encode_utf8_decode_utf8(text);
            assert(s[0] == TAG_SIMPLE);
        },
        Resp::Error(text) => {
            let bytes = encode_utf8(text);
            assert(s =~= seq![TAG_ERROR] + bytes + crlf() + rest);
            lemma_frame_tagged(TAG_ERROR, bytes, rest);
            encode_utf8_valid_utf8(text);
            encode_utf8_decode_utf8(text);
            assert(s[0] == TAG_ERROR);
        },
        Resp::Integer(n) => {
            let text = integer_text(n as int);
            assert(s =~= seq![TAG_INTEGER] + text + crlf() + rest);
            lemma_integer_round_trip(n);
            lemma_frame_tagged(TAG_INTEGER, text, rest);
            assert(s[0] == TAG_INTEGER);
        },
        Resp::BulkString(None) => {
            let text = null_length();
            assert(s =~= seq![TAG_BULK] + text + crlf() + rest);
            assert(is_line_text(text));
            lemma_frame_tagged(TAG_BULK, text, rest);
            assert(s[0] == TAG_BULK);
        },
        Resp::BulkString(Some(bytes)) => {
            let text = digits_of(bytes.len());
            let body = bytes + crlf() + rest;
            assert(s =~= seq![TAG_BULK] + text + crlf() + body);
            lemma_digits_are_line_text(bytes.len());
            lemma_size_round_trip(bytes.len());
            lemma_frame_tagged(TAG_BULK, text, body);
            assert(s[0] == TAG_BULK);
            let n = (text.len() + 3) as nat;
            assert(s.skip(n as int) =~= body);
            assert(body[bytes.len() as int] == CR);
            assert(body[bytes.len() as int + 1] == LF);
            assert(body.subrange(0, bytes.len() as int) =~= bytes);
            assert(spec_payload(body, bytes.len()) == Ok::<_, ParseError>(
                (bytes.len() + 2, bytes),
            ));
        },
        Resp::Array(None) => {
            let text = null_length();
            assert(s =~= seq![TAG_ARRAY] + text + crlf() + rest);
            assert(is_line_text(text));
            lemma_frame_tagged(TAG_ARRAY, text, rest);
            assert(s[0] == TAG_ARRAY);
        },
        Resp::Array(Some(items)) => {
            let text = digits_of(items.len());
            let body = encode_from(items, 0) + rest;
            assert(s =~= seq![TAG_ARRAY] + text + crlf() + body);
            lemma_digits_are_line_text(items.len());
            lemma_size_round_trip(items.len());
            lemma_frame_tagged(TAG_ARRAY, text, body);
            assert(s[0] == TAG_ARRAY);
            let n = (text.len() + 3) as nat;
            assert(s.skip(n as int) =~= body);
            lemma_frame_elements(items, 0, rest, (limit - 1) as nat);
            assert(items.skip(0) =~= items);
        },
    }
}

/// The encodings of `items[from..]`, one after the other, read back as those
/// values, whatever bytes follow.
pub proof fn lemma_frame_elements(items: Seq<Resp>, from: int, rest: Seq<u8>, limit: nat)
    requires
        0 <= from <= items.len(),
        forall|i: int| 0 <= i < items.len() ==> well_formed(#[trigger] items[i]),
        depth_from(items, from) <= limit,
    ensures
        parse_elements(encode_from(items, from) + rest, (items.len() - from) as nat, limit) == Ok::<
            _,
            ParseError,
        >((encode_from(items, from).len(), items.skip(from))),
    decreases items, items.len() - from,
{
    if from < items.len() {
        let first = items[from];
        let tail = encode_from(items, from + 1) + rest;
        let s = encode_from(items, from) + rest;
        assert(s =~= encode(first) + tail);
        lemma_depth_from(items, from, from);
        lemma_frame_value(first, tail, limit);
        assert(s.skip(encode(first).len() as int) =~= tail);
        lemma_frame_elements(items, from + 1, rest, limit);
        assert(seq![first] + items.skip(from + 1) =~= items.skip(from));
    } else {
        assert(items.skip(from) =~= Seq::<Resp>::empty());
        assert(encode_from(items, from) + rest =~= rest);
    }
}

/// Parsing the encoding of a value gives the value back and uses every byte.
pub proof fn law_round_trip(v: Resp, limit: nat)
    requires
        well_formed(v),
        depth(v) <= limit,
    ensures
        parse_value(encode(v), limit) == Ok::<_, ParseError>((encode(v).len(), v)),
{
    lemma_frame_value(v, Seq::empty(), limit);
    assert(encode(v) + Seq::<u8>::empty() =~= encode(v));
}

/// Parsing a strict prefix of the encoding of a value asks for more bytes:
/// it neither fails nor yields a value.
pub proof fn law_strict_prefix_incomplete(v: Resp, limit: nat, k: int)
    requires
        well_formed(v),
        depth(v) <= limit,
        0 <= k < encode(v).len(),
    ensures
        parse_value(encode(v).take(k), limit) == Err::<(nat, Resp), _>(ParseError::Incomplete),
{
    let full = encode(v);
    let head = full.take(k);
    let tail = full.skip(k);
    assert(head + tail =~= full);
    law_round_trip(v, limit);
    lemma_value_settled(head, tail, limit);
    if parse_value(head, limit) is Ok {
        lemma_value_bounds(head, limit);
    }
}

} // verus!
