//! What the parser guarantees about frame boundaries: how much a result
//! consumes, and that a result once reached is not changed by later bytes.

use crate::resp::parse::{
    parse_elements, parse_value, scan_line, spec_array, spec_bulk_string, spec_integer,
    spec_length, spec_line, spec_payload, spec_tagged_line, spec_text, ParseError,
};
use crate::resp::value::{crlf, is_line_text, CR, LF, TAG_ARRAY, TAG_BULK, TAG_INTEGER};
use vstd::prelude::*;

verus! {

/// A result that is not `Incomplete` stays as it is when bytes are added.
pub open spec fn settled<T>(short: Result<T, ParseError>, long: Result<T, ParseError>) -> bool {
    short != Err::<T, ParseError>(ParseError::Incomplete) ==> long == short
}

/// A line that was found ends inside the input, at its first CR, and holds
/// neither CR nor LF before it.
pub proof fn lemma_scan_bounds(s: Seq<u8>, from: int)
    requires
        0 <= from,
        scan_line(s, from) is Ok,
    ensures
        from <= scan_line(s, from)->Ok_0,
        scan_line(s, from)->Ok_0 + 2 <= s.len(),
        s[scan_line(s, from)->Ok_0] == CR,
        s[scan_line(s, from)->Ok_0 + 1] == LF,
        forall|j: int| from <= j < scan_line(s, from)->Ok_0 ==> s[j] != CR && s[j] != LF,
    decreases s.len() - from,
{
    if from < s.len() && s[from] != LF && s[from] != CR {
        lemma_scan_bounds(s, from + 1);
    }
}

/// A line that was read is the text before the first CRLF.
pub proof fn lemma_line_bounds(s: Seq<u8>)
    requires
        spec_line(s) is Ok,
    ensures
        2 <= spec_line(s)->Ok_0.0 <= s.len(),
        spec_line(s)->Ok_0.1.len() + 2 == spec_line(s)->Ok_0.0,
        is_line_text(spec_line(s)->Ok_0.1),
        s.subrange(0, spec_line(s)->Ok_0.0 as int) == spec_line(s)->Ok_0.1 + crlf(),
{
    lemma_scan_bounds(s, 0);
    let n = spec_line(s)->Ok_0.0;
    let text = spec_line(s)->Ok_0.1;
    assert(s.subrange(0, n as int) =~= text + crlf());
}

/// A tagged line that was read ends inside the input.
pub proof fn lemma_tagged_bounds(s: Seq<u8>, tag: u8)
    requires
        spec_tagged_line(s, tag) is Ok,
    ensures
        3 <= spec_tagged_line(s, tag)->Ok_0.0 <= s.len(),
        spec_tagged_line(s, tag)->Ok_0.1.len() + 3 == spec_tagged_line(s, tag)->Ok_0.0,
{
    lemma_line_bounds(s.skip(1));
}

/// A value that was read used at least one byte and no more than the input holds.
pub proof fn lemma_value_bounds(s: Seq<u8>, depth: nat)
    requires
        parse_value(s, depth) is Ok,
    ensures
        1 <= parse_value(s, depth)->Ok_0.0 <= s.len(),
    decreases depth, 2nat, 0nat,
{
    if s[0] == TAG_BULK {
        lemma_tagged_bounds(s, TAG_BULK);
    } else if s[0] == TAG_ARRAY {
        lemma_array_bounds(s, depth);
    } else {
        lemma_tagged_bounds(s, s[0]);
    }
}

/// An array that was read ends inside the input.
pub proof fn lemma_array_bounds(s: Seq<u8>, depth: nat)
    requires
        spec_array(s, depth) is Ok,
    ensures
        1 <= spec_array(s, depth)->Ok_0.0 <= s.len(),
    decreases depth, 1nat, 0nat,
{
    lemma_tagged_bounds(s, TAG_ARRAY);
    match spec_length(s, TAG_ARRAY) {
        Ok((n, Some(count))) => {
            lemma_elements_bounds(s.skip(n as int), count as nat, (depth - 1) as nat);
        },
        _ => {},
    }
}

/// Elements that were read end inside the input and are as many as were asked for.
pub proof fn lemma_elements_bounds(s: Seq<u8>, count: nat, depth: nat)
    requires
        parse_elements(s, count, depth) is Ok,
    ensures
        parse_elements(s, count, depth)->Ok_0.0 <= s.len(),
        parse_elements(s, count, depth)->Ok_0.1.len() == count,
    decreases depth, 3nat, count,
{
    if count > 0 {
        lemma_value_bounds(s, depth);
        let n = parse_value(s, depth)->Ok_0.0;
        lemma_elements_bounds(s.skip(n as int), (count - 1) as nat, depth);
    }
}

/// Where a line ends, or that it is malformed, does not depend on later bytes.
pub proof fn lemma_scan_settled(a: Seq<u8>, b: Seq<u8>, from: int)
    requires
        0 <= from,
    ensures
        settled(scan_line(a, from), scan_line(a + b, from)),
    decreases a.len() - from,
{
    if from < a.len() && a[from] != LF && a[from] != CR {
        lemma_scan_settled(a, b, from + 1);
    }
}

pub proof fn lemma_line_settled(a: Seq<u8>, b: Seq<u8>)
    ensures
        settled(spec_line(a), spec_line(a + b)),
{
    lemma_scan_settled(a, b, 0);
    if scan_line(a, 0) is Ok {
        lemma_scan_bounds(a, 0);
        let end = scan_line(a, 0)->Ok_0;
        assert(a.subrange(0, end) =~= (a + b).subrange(0, end));
    }
}

pub proof fn lemma_tagged_settled(a: Seq<u8>, b: Seq<u8>, tag: u8)
    ensures
        settled(spec_tagged_line(a, tag), spec_tagged_line(a + b, tag)),
{
    if a.len() > 0 {
        assert((a + b).skip(1) =~= a.skip(1) + b);
        lemma_line_settled(a.skip(1), b);
    }
}

pub proof fn lemma_text_settled(a: Seq<u8>, b: Seq<u8>, tag: u8)
    ensures
        settled(spec_text(a, tag), spec_text(a + b, tag)),
{
    lemma_tagged_settled(a, b, tag);
}

pub proof fn lemma_integer_settled(a: Seq<u8>, b: Seq<u8>)
    ensures
        settled(spec_integer(a), spec_integer(a + b)),
{
    lemma_tagged_settled(a, b, TAG_INTEGER);
}

pub proof fn lemma_length_settled(a: Seq<u8>, b: Seq<u8>, tag: u8)
    ensures
        settled(spec_length(a, tag), spec_length(a + b, tag)),
{
    lemma_tagged_settled(a, b, tag);
}

pub proof fn lemma_payload_settled(a: Seq<u8>, b: Seq<u8>, size: nat)
    ensures
        settled(spec_payload(a, size), spec_payload(a + b, size)),
{
    if spec_payload(a, size) is Ok {
        assert(a.subrange(0, size as int) =~= (a + b).subrange(0, size as int));
    }
}

pub proof fn lemma_bulk_settled(a: Seq<u8>, b: Seq<u8>)
    ensures
        settled(spec_bulk_string(a), spec_bulk_string(a + b)),
{
    lemma_length_settled(a, b, TAG_BULK);
    match spec_length(a, TAG_BULK) {
        Ok((n, Some(size))) => {
            lemma_tagged_bounds(a, TAG_BULK);
            assert((a + b).skip(n as int) =~= a.skip(n as int) + b);
            lemma_payload_settled(a.skip(n as int), b, size as nat);
        },
        _ => {},
    }
}

/// A value that was read, or a syntax error that was found, does not depend
/// on the bytes that follow.
pub proof fn lemma_value_settled(a: Seq<u8>, b: Seq<u8>, depth: nat)
    ensures
        settled(parse_value(a, depth), parse_value(a + b, depth)),
    decreases depth, 2nat, 0nat,
{
    if a.len() > 0 {
        assert((a + b)[0] == a[0]);
        lemma_text_settled(a, b, a[0]);
        lemma_integer_settled(a, b);
        lemma_bulk_settled(a, b);
        if a[0] == TAG_ARRAY {
            lemma_array_settled(a, b, depth);
        }
    }
}

pub proof fn lemma_array_settled(a: Seq<u8>, b: Seq<u8>, depth: nat)
    ensures
        settled(spec_array(a, depth), spec_array(a + b, depth)),
    decreases depth, 1nat, 0nat,
{
    lemma_length_settled(a, b, TAG_ARRAY);
    match spec_length(a, TAG_ARRAY) {
        Ok((n, Some(count))) => {
            if depth > 0 {
                lemma_tagged_bounds(a, TAG_ARRAY);
                assert((a + b).skip(n as int) =~= a.skip(n as int) + b);
                lemma_elements_settled(a.skip(n as int), b, count as nat, (depth - 1) as nat);
            }
        },
        _ => {},
    }
}

pub proof fn lemma_elements_settled(a: Seq<u8>, b: Seq<u8>, count: nat, depth: nat)
    ensures
        settled(parse_elements(a, count, depth), parse_elements(a + b, count, depth)),
    decreases depth, 3nat, count,
{
    if count > 0 {
        lemma_value_settled(a, b, depth);
        match parse_value(a, depth) {
            Ok((n, first)) => {
                lemma_value_bounds(a, depth);
                assert((a + b).skip(n as int) =~= a.skip(n as int) + b);
                lemma_elements_settled(a.skip(n as int), b, (count - 1) as nat, depth);
            },
            Err(_) => {},
        }
    }
}

} // verus!
