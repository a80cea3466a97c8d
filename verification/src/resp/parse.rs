//! The parser: from the bytes received so far to one value and its length.
//!
//! Every function takes the unconsumed input from its first byte and either
//! returns a result together with the number of bytes it used, asks for more
//! input, or reports that no continuation of the input can be well formed.

use crate::resp::decimal::{
    decimal_integer, decimal_size, integer_of_text, lemma_integer_text_is_utf8,
    lemma_size_text_is_utf8, size_of_text,
};
use crate::resp::value::{
    lemma_models_from, models_from, push_bytes, views_of, Resp, RespValue, CR, LF, TAG_ARRAY,
    TAG_BULK, TAG_ERROR, TAG_INTEGER, TAG_SIMPLE,
};
use vstd::prelude::*;
use vstd::slice::slice_subrange;
use vstd::string::StringSliceAdditionalSpecFns;
use vstd::utf8::{decode_utf8, encode_utf8_decode_utf8, valid_utf8};

verus! {

/// The deepest nesting of arrays that `resp` accepts.
pub const MAX_DEPTH: usize = 32;

/// Why no value came out of the input.
#[derive(Debug, PartialEq, Eq, Clone, Copy)]
pub enum ParseError {
    /// The input is a prefix of something well formed; more bytes are needed.
    Incomplete,
    /// The input is malformed, whatever bytes may follow.
    Syntax,
}

/// Where the line that starts at `from` ends: the position of its CR.
pub open spec fn scan_line(s: Seq<u8>, from: int) -> Result<int, ParseError>
    decreases s.len() - from,
{
    if from < 0 || from >= s.len() {
        Err(ParseError::Incomplete)
    } else if s[from] == LF {
        Err(ParseError::Syntax)
    } else if s[from] == CR {
        if from + 1 >= s.len() {
            Err(ParseError::Incomplete)
        } else if s[from + 1] == LF {
            Ok(from)
        } else {
            Err(ParseError::Syntax)
        }
    } else {
        scan_line(s, from + 1)
    }
}

/// A line at the start of `s`: its text, and its length with the terminator.
pub open spec fn spec_line(s: Seq<u8>) -> Result<(nat, Seq<u8>), ParseError> {
    match scan_line(s, 0) {
        Ok(end) => Ok(((end + 2) as nat, s.subrange(0, end))),
        Err(e) => Err(e),
    }
}

/// A line that follows the one-byte tag `tag`.
pub open spec fn spec_tagged_line(s: Seq<u8>, tag: u8) -> Result<(nat, Seq<u8>), ParseError> {
    if s.len() == 0 {
        Err(ParseError::Incomplete)
    } else if s[0] != tag {
        Err(ParseError::Syntax)
    } else {
        match spec_line(s.skip(1)) {
            Ok((n, text)) => Ok((n + 1, text)),
            Err(e) => Err(e),
        }
    }
}

/// A tagged line whose bytes are UTF-8 text.
pub open spec fn spec_text(s: Seq<u8>, tag: u8) -> Result<(nat, Seq<char>), ParseError> {
    match spec_tagged_line(s, tag) {
        Ok((n, text)) => if valid_utf8(text) {
            Ok((n, decode_utf8(text)))
        } else {
            Err(ParseError::Syntax)
        },
        Err(e) => Err(e),
    }
}

/// An integer line.
pub open spec fn spec_integer(s: Seq<u8>) -> Result<(nat, i64), ParseError> {
    match spec_tagged_line(s, TAG_INTEGER) {
        Ok((n, text)) => match integer_of_text(text) {
            Ok(value) => Ok((n, value)),
            Err(_) => Err(ParseError::Syntax),
        },
        Err(e) => Err(e),
    }
}

/// The text of the null sentinel in a length field.
pub open spec fn null_length() -> Seq<u8> {
    seq![0x2du8, 0x31u8]
}

/// A length header under the tag `tag`: `None` for the null sentinel `-1`,
/// else an unsigned decimal size.
pub open spec fn spec_length(s: Seq<u8>, tag: u8) -> Result<(nat, Option<usize>), ParseError> {
    match spec_tagged_line(s, tag) {
        Ok((n, text)) => if text == null_length() {
            Ok((n, None))
        } else {
            match size_of_text(text) {
                Ok(size) => Ok((n, Some(size))),
                Err(_) => Err(ParseError::Syntax),
            }
        },
        Err(e) => Err(e),
    }
}

/// The payload of a bulk string of declared length `size`, with its terminator.
pub open spec fn spec_payload(body: Seq<u8>, size: nat) -> Result<(nat, Seq<u8>), ParseError> {
    if body.len() <= size {
        Err(ParseError::Incomplete)
    } else if body[size as int] != CR {
        Err(ParseError::Syntax)
    } else if body.len() == size + 1 {
        Err(ParseError::Incomplete)
    } else if body[size as int + 1] != LF {
        Err(ParseError::Syntax)
    } else {
        Ok((size + 2, body.subrange(0, size as int)))
    }
}

/// A bulk string: its header, then exactly the declared number of bytes, then CRLF.
pub open spec fn spec_bulk_string(s: Seq<u8>) -> Result<(nat, Option<Seq<u8>>), ParseError> {
    match spec_length(s, TAG_BULK) {
        Ok((n, None)) => Ok((n, None)),
        Ok((n, Some(size))) => match spec_payload(s.skip(n as int), size as nat) {
            Ok((m, bytes)) => Ok((n + m, Some(bytes))),
            Err(e) => Err(e),
        },
        Err(e) => Err(e),
    }
}

/// One value at the start of `s`, with arrays nested at most `depth` deep.
pub open spec fn parse_value(s: Seq<u8>, depth: nat) -> Result<(nat, Resp), ParseError>
    decreases depth, 2nat, 0nat,
{
    if s.len() == 0 {
        Err(ParseError::Incomplete)
    } else if s[0] == TAG_SIMPLE {
        match spec_text(s, TAG_SIMPLE) {
            Ok((n, text)) => Ok((n, Resp::SimpleString(text))),
            Err(e) => Err(e),
        }
    } else if s[0] == TAG_ERROR {
        match spec_text(s, TAG_ERROR) {
            Ok((n, text)) => Ok((n, Resp::Error(text))),
            Err(e) => Err(e),
        }
    } else if s[0] == TAG_INTEGER {
        match spec_integer(s) {
            Ok((n, value)) => Ok((n, Resp::Integer(value))),
            Err(e) => Err(e),
        }
    } else if s[0] == TAG_BULK {
        match spec_bulk_string(s) {
            Ok((n, bytes)) => Ok((n, Resp::BulkString(bytes))),
            Err(e) => Err(e),
        }
    } else if s[0] == TAG_ARRAY {
        match spec_array(s, depth) {
            Ok((n, items)) => Ok((n, Resp::Array(items))),
            Err(e) => Err(e),
        }
    } else {
        Err(ParseError::Syntax)
    }
}

/// An array: its header, then as many values as the header counts. An array
/// with elements is refused where `depth` is used up.
pub open spec fn spec_array(s: Seq<u8>, depth: nat) -> Result<(nat, Option<Seq<Resp>>), ParseError>
    decreases depth, 1nat, 0nat,
{
    match spec_length(s, TAG_ARRAY) {
        Ok((n, None)) => Ok((n, None)),
        Ok((n, Some(count))) => if depth == 0 {
            Err(ParseError::Syntax)
        } else {
            match parse_elements(s.skip(n as int), count as nat, (depth - 1) as nat) {
                Ok((m, items)) => Ok((n + m, Some(items))),
                Err(e) => Err(e),
            }
        },
        Err(e) => Err(e),
    }
}

/// `count` values one after the other.
pub open spec fn parse_elements(s: Seq<u8>, count: nat, depth: nat) -> Result<
    (nat, Seq<Resp>),
    ParseError,
>
    decreases depth, 3nat, count,
{
    if count == 0 {
        Ok((0, Seq::empty()))
    } else {
        match parse_value(s, depth) {
            Ok((n, first)) => match parse_elements(s.skip(n as int), (count - 1) as nat, depth) {
                Ok((m, rest)) => Ok((n + m, seq![first] + rest)),
                Err(e) => Err(e),
            },
            Err(e) => Err(e),
        }
    }
}

/// Reads one line: the text before the first CRLF, and the bytes used.
pub fn line(input: &[u8]) -> (r: Result<(usize, &[u8]), ParseError>)
    ensures
        match r {
            Ok((n, text)) => spec_line(input@) == Ok::<_, ParseError>((n as nat, text@)) && n
                <= input@.len(),
            Err(e) => spec_line(input@) == Err::<(nat, Seq<u8>), _>(e),
        },
{
    let mut i: usize = 0;
    while i < input.len()
        invariant
            i <= input@.len(),
            scan_line(input@, 0) == scan_line(input@, i as int),
        decreases input@.len() - i,
    {
        let b = input[i];
        if b == LF {
            return Err(ParseError::Syntax);
        }
        if b == CR {
            if i + 1 >= input.len() {
                return Err(ParseError::Incomplete);
            }
            if input[i + 1] == LF {
                return Ok((i + 2, slice_subrange(input, 0, i)));
            }
            return Err(ParseError::Syntax);
        }
        i += 1;
    }
    Err(ParseError::Incomplete)
}

/// Reads the tag byte `tag` and the line behind it.
pub fn tagged_line(input: &[u8], tag: u8) -> (r: Result<(usize, &[u8]), ParseError>)
    ensures
        match r {
            Ok((n, text)) => spec_tagged_line(input@, tag) == Ok::<_, ParseError>(
                (n as nat, text@),
            ) && n <= input@.len(),
            Err(e) => spec_tagged_line(input@, tag) == Err::<(nat, Seq<u8>), _>(e),
        },
{
    if input.len() == 0 {
        return Err(ParseError::Incomplete);
    }
    if input[0] != tag {
        return Err(ParseError::Syntax);
    }
    match line(slice_subrange(input, 1, input.len())) {
        Ok((n, text)) => Ok((n + 1, text)),
        Err(e) => Err(e),
    }
}

/// `std::str::from_utf8`: the text that `input` encodes. The standard
/// library accepts exactly the well-formed UTF-8 byte strings and returns
/// the same bytes seen as text.
#[verifier::external_body]
fn utf8_text(input: &[u8]) -> (text: Option<&str>)
    ensures
        text is Some <==> valid_utf8(input@),
        text matches Some(t) ==> t.spec_bytes() == input@,
{
    std::str::from_utf8(input).ok()
}

/// Sees `input` as text, where it is well-formed UTF-8.
pub fn string_from_bytes(input: &[u8]) -> (r: Result<&str, ParseError>)
    ensures
        match r {
            Ok(text) => valid_utf8(input@) && text@ == decode_utf8(input@) && text.spec_bytes()
                == input@,
            Err(e) => e == ParseError::Syntax && !valid_utf8(input@),
        },
{
    match utf8_text(input) {
        Some(text) => {
            proof {
                encode_utf8_decode_utf8(text@);
            }
            Ok(text)
        },
        None => Err(ParseError::Syntax),
    }
}

/// Reads a text line under the tag `tag`.
fn text_line(input: &[u8], tag: u8) -> (r: Result<(usize, &str), ParseError>)
    ensures
        match r {
            Ok((n, text)) => spec_text(input@, tag) == Ok::<_, ParseError>((n as nat, text@)) && n
                <= input@.len(),
            Err(e) => spec_text(input@, tag) == Err::<(nat, Seq<char>), _>(e),
        },
{
    match tagged_line(input, tag) {
        Ok((n, bytes)) => match string_from_bytes(bytes) {
            Ok(text) => Ok((n, text)),
            Err(e) => Err(e),
        },
        Err(e) => Err(e),
    }
}

/// Reads a simple string: `+`, text, CRLF.
pub fn string(input: &[u8]) -> (r: Result<(usize, &str), ParseError>)
    ensures
        match r {
            Ok((n, text)) => spec_text(input@, TAG_SIMPLE) == Ok::<_, ParseError>(
                (n as nat, text@),
            ) && n <= input@.len(),
            Err(e) => spec_text(input@, TAG_SIMPLE) == Err::<(nat, Seq<char>), _>(e),
        },
{
    text_line(input, TAG_SIMPLE)
}

/// Reads an error: `-`, text, CRLF.
pub fn error(input: &[u8]) -> (r: Result<(usize, &str), ParseError>)
    ensures
        match r {
            Ok((n, text)) => spec_text(input@, TAG_ERROR) == Ok::<_, ParseError>((n as nat, text@))
                && n <= input@.len(),
            Err(e) => spec_text(input@, TAG_ERROR) == Err::<(nat, Seq<char>), _>(e),
        },
{
    text_line(input, TAG_ERROR)
}

/// Reads an integer: `:`, a signed decimal number, CRLF.
pub fn integer(input: &[u8]) -> (r: Result<(usize, i64), ParseError>)
    ensures
        match r {
            Ok((n, value)) => spec_integer(input@) == Ok::<_, ParseError>((n as nat, value)) && n
                <= input@.len(),
            Err(e) => spec_integer(input@) == Err::<(nat, i64), _>(e),
        },
{
    match tagged_line(input, TAG_INTEGER) {
        Ok((n, bytes)) => {
            proof {
                if integer_of_text(bytes@) is Ok {
                    lemma_integer_text_is_utf8(bytes@);
                }
            }
            match string_from_bytes(bytes) {
                Ok(text) => match decimal_integer(text) {
                    Ok(value) => Ok((n, value)),
                    Err(_) => Err(ParseError::Syntax),
                },
                Err(e) => Err(e),
            }
        },
        Err(e) => Err(e),
    }
}

/// Reads a length header under the tag `tag`.
fn length_prefix(input: &[u8], tag: u8) -> (r: Result<(usize, Option<usize>), ParseError>)
    ensures
        match r {
            Ok((n, size)) => spec_length(input@, tag) == Ok::<_, ParseError>((n as nat, size)) && n
                <= input@.len(),
            Err(e) => spec_length(input@, tag) == Err::<(nat, Option<usize>), _>(e),
        },
{
    match tagged_line(input, tag) {
        Ok((n, bytes)) => {
            if bytes.len() == 2 && bytes[0] == 0x2d && bytes[1] == 0x31 {
                assert(bytes@ =~= null_length());
                return Ok((n, None));
            }
            proof {
                if size_of_text(bytes@) is Ok {
                    lemma_size_text_is_utf8(bytes@);
                }
            }
            match string_from_bytes(bytes) {
                Ok(text) => match decimal_size(text) {
                    Ok(size) => Ok((n, Some(size))),
                    Err(_) => Err(ParseError::Syntax),
                },
                Err(e) => Err(e),
            }
        },
        Err(e) => Err(e),
    }
}

/// Reads the header of a bulk string: `$`, a length or `-1`, CRLF.
pub fn bulk_string_length_prefix(input: &[u8]) -> (r: Result<(usize, Option<usize>), ParseError>)
    ensures
        match r {
            Ok((n, size)) => spec_length(input@, TAG_BULK) == Ok::<_, ParseError>(
                (n as nat, size),
            ) && n <= input@.len(),
            Err(e) => spec_length(input@, TAG_BULK) == Err::<(nat, Option<usize>), _>(e),
        },
{
    length_prefix(input, TAG_BULK)
}

/// Reads the header of an array: `*`, a count or `-1`, CRLF.
pub fn array_length_prefix(input: &[u8]) -> (r: Result<(usize, Option<usize>), ParseError>)
    ensures
        match r {
            Ok((n, count)) => spec_length(input@, TAG_ARRAY) == Ok::<_, ParseError>(
                (n as nat, count),
            ) && n <= input@.len(),
            Err(e) => spec_length(input@, TAG_ARRAY) == Err::<(nat, Option<usize>), _>(e),
        },
{
    length_prefix(input, TAG_ARRAY)
}

/// Reads a bulk string: its header, the declared number of bytes, CRLF.
pub fn bulk_string(input: &[u8]) -> (r: Result<(usize, Option<&[u8]>), ParseError>)
    ensures
        match r {
            Ok((n, Some(bytes))) => spec_bulk_string(input@) == Ok::<_, ParseError>(
                (n as nat, Some(bytes@)),
            ) && n <= input@.len(),
            Ok((n, None)) => spec_bulk_string(input@) == Ok::<(nat, Option<Seq<u8>>), ParseError>(
                (n as nat, None),
            ) && n <= input@.len(),
            Err(e) => spec_bulk_string(input@) == Err::<(nat, Option<Seq<u8>>), _>(e),
        },
{
    match bulk_string_length_prefix(input) {
        Ok((n, None)) => Ok((n, None)),
        Ok((n, Some(size))) => {
            let body = slice_subrange(input, n, input.len());
            if body.len() <= size {
                return Err(ParseError::Incomplete);
            }
            if body[size] != CR {
                return Err(ParseError::Syntax);
            }
            if body.len() - size == 1 {
                return Err(ParseError::Incomplete);
            }
            if body[size + 1] != LF {
                return Err(ParseError::Syntax);
            }
            Ok((n + size + 2, Some(slice_subrange(body, 0, size))))
        },
        Err(e) => Err(e),
    }
}

/// Reads one value, with arrays nested at most `depth` deep.
pub fn resp_within(input: &[u8], depth: usize) -> (r: Result<(usize, RespValue), ParseError>)
    ensures
        match r {
            Ok((n, value)) => parse_value(input@, depth as nat) == Ok::<_, ParseError>(
                (n as nat, value@),
            ) && n <= input@.len(),
            Err(e) => parse_value(input@, depth as nat) == Err::<(nat, Resp), _>(e),
        },
    decreases depth, 2nat, 0nat,
{
    if input.len() == 0 {
        return Err(ParseError::Incomplete);
    }
    let tag = input[0];
    if tag == TAG_SIMPLE {
        match string(input) {
            Ok((n, text)) => Ok((n, RespValue::SimpleString(text.to_owned()))),
            Err(e) => Err(e),
        }
    } else if tag == TAG_ERROR {
        match error(input) {
            Ok((n, text)) => Ok((n, RespValue::Error(text.to_owned()))),
            Err(e) => Err(e),
        }
    } else if tag == TAG_INTEGER {
        match integer(input) {
            Ok((n, value)) => Ok((n, RespValue::Integer(value))),
            Err(e) => Err(e),
        }
    } else if tag == TAG_BULK {
        match bulk_string(input) {
            Ok((n, Some(bytes))) => {
                let mut owned: Vec<u8> = Vec::new();
                push_bytes(&mut owned, bytes);
                assert(owned@ =~= bytes@);
                Ok((n, RespValue::BulkString(Some(owned))))
            },
            Ok((n, None)) => Ok((n, RespValue::BulkString(None))),
            Err(e) => Err(e),
        }
    } else if tag == TAG_ARRAY {
        match array_within(input, depth) {
            Ok((n, Some(items))) => {
                proof {
                    lemma_models_from(items@, 0);
                    assert(models_from(items@, 0) =~= views_of(items@));
                }
                Ok((n, RespValue::Array(Some(items))))
            },
            Ok((n, None)) => Ok((n, RespValue::Array(None))),
            Err(e) => Err(e),
        }
    } else {
        Err(ParseError::Syntax)
    }
}

/// Reads an array, with arrays nested at most `depth` deep, itself included.
pub fn array_within(input: &[u8], depth: usize) -> (r: Result<
    (usize, Option<Vec<RespValue>>),
    ParseError,
>)
    ensures
        match r {
            Ok((n, Some(items))) => spec_array(input@, depth as nat) == Ok::<_, ParseError>(
                (n as nat, Some(views_of(items@))),
            ) && n <= input@.len(),
            Ok((n, None)) => spec_array(input@, depth as nat) == Ok::<
                (nat, Option<Seq<Resp>>),
                ParseError,
            >((n as nat, None)) && n <= input@.len(),
            Err(e) => spec_array(input@, depth as nat) == Err::<(nat, Option<Seq<Resp>>), _>(e),
        },
    decreases depth, 1nat, 0nat,
{
    match array_length_prefix(input) {
        Ok((n, None)) => Ok((n, None)),
        Ok((n, Some(count))) => {
            if depth == 0 {
                return Err(ParseError::Syntax);
            }
            let ghost body = input@.skip(n as int);
            let ghost inner = (depth - 1) as nat;
            let mut items: Vec<RespValue> = Vec::new();
            let mut pos: usize = n;
            let mut k: usize = 0;
            while k < count
                invariant
                    n <= pos <= input@.len(),
                    k <= count,
                    depth > 0,
                    inner == depth - 1,
                    body == input@.skip(n as int),
                    items@.len() == k,
                    spec_length(input@, TAG_ARRAY) == Ok::<_, ParseError>((n as nat, Some(count))),
                    match parse_elements(input@.skip(pos as int), (count - k) as nat, inner) {
                        Ok((m, rest)) => parse_elements(body, count as nat, inner) == Ok::<
                            _,
                            ParseError,
                        >(((pos - n + m) as nat, views_of(items@) + rest)),
                        Err(e) => parse_elements(body, count as nat, inner) == Err::<
                            (nat, Seq<Resp>),
                            _,
                        >(e),
                    },
                decreases count - k,
            {
                let ghost here = input@.skip(pos as int);
                match resp_within(slice_subrange(input, pos, input.len()), depth - 1) {
                    Ok((used, value)) => {
                        proof {
                            assert(here.skip(used as int) =~= input@.skip(pos + used));
                            let before = views_of(items@);
                            let after = views_of(items@.push(value));
                            assert(after =~= before + seq![value@]);
                            match parse_elements(
                                here.skip(used as int),
                                (count - k - 1) as nat,
                                inner,
                            ) {
                                Ok((m, rest)) => {
                                    assert(before + (seq![value@] + rest) =~= after + rest);
                                },
                                Err(_) => {},
                            }
                        }
                        items.push(value);
                        pos = pos + used;
                        k = k + 1;
                    },
                    Err(e) => {
                        return Err(e);
                    },
                }
            }
            proof {
                assert(views_of(items@) + Seq::<Resp>::empty() =~= views_of(items@));
            }
            Ok((pos, Some(items)))
        },
        Err(e) => Err(e),
    }
}

/// Reads an array with the default nesting limit.
pub fn array(input: &[u8]) -> (r: Result<(usize, Option<Vec<RespValue>>), ParseError>)
    ensures
        match r {
            Ok((n, Some(items))) => spec_array(input@, MAX_DEPTH as nat) == Ok::<_, ParseError>(
                (n as nat, Some(views_of(items@))),
            ) && n <= input@.len(),
            Ok((n, None)) => spec_array(input@, MAX_DEPTH as nat) == Ok::<
                (nat, Option<Seq<Resp>>),
                ParseError,
            >((n as nat, None)) && n <= input@.len(),
            Err(e) => spec_array(input@, MAX_DEPTH as nat) == Err::<(nat, Option<Seq<Resp>>), _>(
                e,
            ),
        },
{
    array_within(input, MAX_DEPTH)
}

/// Reads one value with the default nesting limit.
pub fn resp(input: &[u8]) -> (r: Result<(usize, RespValue), ParseError>)
    ensures
        match r {
            Ok((n, value)) => parse_value(input@, MAX_DEPTH as nat) == Ok::<_, ParseError>(
                (n as nat, value@),
            ) && n <= input@.len(),
            Err(e) => parse_value(input@, MAX_DEPTH as nat) == Err::<(nat, Resp), _>(e),
        },
{
    resp_within(input, MAX_DEPTH)
}

} // verus!
