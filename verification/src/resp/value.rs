//! RESP values and their byte encoding.

use crate::resp::decimal::{digits_of, integer_text, push_digits, push_integer};
use vstd::prelude::*;
use vstd::utf8::encode_utf8;

verus! {

pub const CR: u8 = 0x0d;

pub const LF: u8 = 0x0a;

pub const TAG_SIMPLE: u8 = 0x2b;

pub const TAG_ERROR: u8 = 0x2d;

pub const TAG_INTEGER: u8 = 0x3a;

pub const TAG_BULK: u8 = 0x24;

pub const TAG_ARRAY: u8 = 0x2a;

/// A protocol value as it is held in memory.
#[derive(Debug, PartialEq, Eq)]
pub enum RespValue {
    /// A short line of text.
    SimpleString(String),
    /// An error line.
    Error(String),
    /// A signed 64-bit integer.
    Integer(i64),
    /// A binary-safe string, or `None` for the null bulk string.
    BulkString(Option<Vec<u8>>),
    /// A sequence of values, or `None` for the null array.
    Array(Option<Vec<RespValue>>),
}

/// The mathematical value that a `RespValue` stands for.
pub enum Resp {
    SimpleString(Seq<char>),
    Error(Seq<char>),
    Integer(i64),
    BulkString(Option<Seq<u8>>),
    Array(Option<Seq<Resp>>),
}

/// The value that `v` stands for.
pub open spec fn model(v: RespValue) -> Resp
    decreases v, 0nat,
{
    match v {
        RespValue::SimpleString(text) => Resp::SimpleString(text@),
        RespValue::Error(text) => Resp::Error(text@),
        RespValue::Integer(n) => Resp::Integer(n),
        RespValue::BulkString(None) => Resp::BulkString(None),
        RespValue::BulkString(Some(bytes)) => Resp::BulkString(Some(bytes@)),
        RespValue::Array(None) => Resp::Array(None),
        RespValue::Array(Some(items)) => Resp::Array(Some(models_from(items@, 0))),
    }
}

/// The values that `items[from..]` stand for, in order.
pub open spec fn models_from(items: Seq<RespValue>, from: int) -> Seq<Resp>
    decreases items, items.len() - from,
{
    if 0 <= from < items.len() {
        seq![model(items[from])] + models_from(items, from + 1)
    } else {
        Seq::empty()
    }
}

impl View for RespValue {
    type V = Resp;

    open spec fn view(&self) -> Resp {
        model(*self)
    }
}

/// The values that a run of in-memory values stands for, element by element.
pub open spec fn views_of(items: Seq<RespValue>) -> Seq<Resp> {
    Seq::new(items.len(), |i: int| items[i]@)
}

/// `models_from` maps element by element.
pub proof fn lemma_models_from(items: Seq<RespValue>, from: int)
    requires
        0 <= from <= items.len(),
    ensures
        models_from(items, from).len() == items.len() - from,
        forall|j: int|
            0 <= j < items.len() - from ==> #[trigger] models_from(items, from)[j] == items[from
                + j]@,
        from == 0 ==> models_from(items, from) == views_of(items),
    decreases items.len() - from,
{
    if from < items.len() {
        lemma_models_from(items, from + 1);
    }
    if from == 0 {
        assert(models_from(items, from) =~= views_of(items));
    }
}

/// The two bytes that end every line.
pub open spec fn crlf() -> Seq<u8> {
    seq![CR, LF]
}

/// Whether `bytes` can stand on one line: it holds neither CR nor LF.
pub open spec fn is_line_text(bytes: Seq<u8>) -> bool {
    forall|i: int| 0 <= i < bytes.len() ==> #[trigger] bytes[i] != CR && bytes[i] != LF
}

/// The exact wire encoding of a value.
pub open spec fn encode(v: Resp) -> Seq<u8>
    decreases v, 0nat,
{
    match v {
        Resp::SimpleString(text) => seq![TAG_SIMPLE] + encode_utf8(text) + crlf(),
        Resp::Error(text) => seq![TAG_ERROR] + encode_utf8(text) + crlf(),
        Resp::Integer(n) => seq![TAG_INTEGER] + integer_text(n as int) + crlf(),
        Resp::BulkString(None) => seq![TAG_BULK, 0x2du8, 0x31u8] + crlf(),
        Resp::BulkString(Some(bytes)) => seq![TAG_BULK] + digits_of(bytes.len()) + crlf() + bytes
            + crlf(),
        Resp::Array(None) => seq![TAG_ARRAY, 0x2du8, 0x31u8] + crlf(),
        Resp::Array(Some(items)) => seq![TAG_ARRAY] + digits_of(items.len()) + crlf() + encode_from(
            items,
            0,
        ),
    }
}

/// The encodings of `items[from..]`, one after the other.
pub open spec fn encode_from(items: Seq<Resp>, from: int) -> Seq<u8>
    decreases items, items.len() - from,
{
    if 0 <= from < items.len() {
        encode(items[from]) + encode_from(items, from + 1)
    } else {
        Seq::empty()
    }
}

/// How deeply arrays are nested in a value: 0 for a value that holds no
/// array with elements.
pub open spec fn depth(v: Resp) -> nat
    decreases v, 0nat,
{
    match v {
        Resp::Array(Some(items)) => 1 + depth_from(items, 0),
        _ => 0,
    }
}

/// The largest depth among `items[from..]`.
pub open spec fn depth_from(items: Seq<Resp>, from: int) -> nat
    decreases items, items.len() - from,
{
    if 0 <= from < items.len() {
        let first = depth(items[from]);
        let rest = depth_from(items, from + 1);
        if first >= rest {
            first
        } else {
            rest
        }
    } else {
        0
    }
}

/// The invariants of the data model: text lines hold no CR or LF, and
/// every length fits the machine's size type.
pub open spec fn well_formed(v: Resp) -> bool
    decreases v,
{
    match v {
        Resp::SimpleString(text) => is_line_text(encode_utf8(text)),
        Resp::Error(text) => is_line_text(encode_utf8(text)),
        Resp::Integer(_) => true,
        Resp::BulkString(None) => true,
        Resp::BulkString(Some(bytes)) => bytes.len() <= usize::MAX,
        Resp::Array(None) => true,
        Resp::Array(Some(items)) => items.len() <= usize::MAX && forall|i: int|
            0 <= i < items.len() ==> well_formed(#[trigger] items[i]),
    }
}

/// Every element from `from` on is no deeper than `depth_from` says.
pub proof fn lemma_depth_from(items: Seq<Resp>, from: int, j: int)
    requires
        0 <= from <= j < items.len(),
    ensures
        depth(items[j]) <= depth_from(items, from),
        depth_from(items, j + 1) <= depth_from(items, from),
    decreases j - from,
{
    if from < j {
        lemma_depth_from(items, from + 1, j);
    }
}

/// `depth_from` is no more than a bound that holds of every element.
pub proof fn lemma_depth_from_bound(items: Seq<Resp>, from: int, bound: nat)
    requires
        0 <= from <= items.len(),
        forall|j: int| from <= j < items.len() ==> depth(#[trigger] items[j]) <= bound,
    ensures
        depth_from(items, from) <= bound,
    decreases items.len() - from,
{
    if from < items.len() {
        lemma_depth_from_bound(items, from + 1, bound);
    }
}

/// Whether `bytes` holds neither CR nor LF.
pub fn holds_no_line_break(bytes: &[u8]) -> (ok: bool)
    ensures
        ok == is_line_text(bytes@),
{
    let mut i: usize = 0;
    while i < bytes.len()
        invariant
            i <= bytes@.len(),
            forall|j: int| 0 <= j < i ==> #[trigger] bytes@[j] != CR && bytes@[j] != LF,
        decreases bytes@.len() - i,
    {
        if bytes[i] == CR || bytes[i] == LF {
            return false;
        }
        i += 1;
    }
    true
}

/// Appends `bytes` to `out`.
pub fn push_bytes(out: &mut Vec<u8>, bytes: &[u8])
    ensures
        final(out)@ == old(out)@ + bytes@,
{
    let mut i: usize = 0;
    while i < bytes.len()
        invariant
            i <= bytes@.len(),
            out@ == old(out)@ + bytes@.take(i as int),
        decreases bytes@.len() - i,
    {
        out.push(bytes[i]);
        assert(bytes@.take(i + 1) =~= bytes@.take(i as int).push(bytes@[i as int]));
        i += 1;
    }
    assert(bytes@.take(i as int) =~= bytes@);
}

/// Appends the line terminator to `out`.
pub fn push_crlf(out: &mut Vec<u8>)
    ensures
        final(out)@ == old(out)@ + crlf(),
{
    out.push(CR);
    out.push(LF);
    assert(final(out)@ =~= old(out)@ + crlf());
}

impl RespValue {
    /// Appends the wire encoding of the value to `out`.
    pub fn write_to(&self, out: &mut Vec<u8>)
        ensures
            final(out)@ == old(out)@ + encode(self@),
        decreases self,
    {
        match self {
            RespValue::SimpleString(text) => {
                out.push(TAG_SIMPLE);
                push_bytes(out, text.as_str().as_bytes());
                push_crlf(out);
                assert(final(out)@ =~= old(out)@ + encode(self@));
            },
            RespValue::Error(text) => {
                out.push(TAG_ERROR);
                push_bytes(out, text.as_str().as_bytes());
                push_crlf(out);
                assert(final(out)@ =~= old(out)@ + encode(self@));
            },
            RespValue::Integer(n) => {
                out.push(TAG_INTEGER);
                push_integer(out, *n);
                push_crlf(out);
                assert(final(out)@ =~= old(out)@ + encode(self@));
            },
            RespValue::BulkString(None) => {
                out.push(TAG_BULK);
                out.push(0x2d);
                out.push(0x31);
                push_crlf(out);
                assert(final(out)@ =~= old(out)@ + encode(self@));
            },
            RespValue::BulkString(Some(bytes)) => {
                out.push(TAG_BULK);
                push_digits(out, bytes.len() as u64);
                push_crlf(out);
                push_bytes(out, bytes.as_slice());
                push_crlf(out);
                assert(final(out)@ =~= old(out)@ + encode(self@));
            },
            RespValue::Array(None) => {
                out.push(TAG_ARRAY);
                out.push(0x2d);
                out.push(0x31);
                push_crlf(out);
                assert(final(out)@ =~= old(out)@ + encode(self@));
            },
            RespValue::Array(Some(items)) => {
                out.push(TAG_ARRAY);
                push_digits(out, items.len() as u64);
                push_crlf(out);
                let ghost models = models_from(items@, 0);
                let ghost head = out@;
                proof {
                    lemma_models_from(items@, 0);
                }
                let mut i: usize = 0;
                while i < items.len()
                    invariant
                        i <= items@.len(),
                        models.len() == items@.len(),
                        forall|j: int| 0 <= j < items@.len() ==> models[j] == items@[j]@,
                        forall|j: int| 0 <= j < items@.len() ==> decreases_to!(self => items@[j]),
                        out@ + encode_from(models, i as int) == head + encode_from(models, 0),
                    decreases items@.len() - i,
                {
                    let ghost before = out@;
                    items[i].write_to(out);
                    assert(out@ + encode_from(models, i + 1) =~= before + encode_from(
                        models,
                        i as int,
                    ));
                    i += 1;
                }
                assert(final(out)@ =~= old(out)@ + encode(self@));
            },
        }
    }

    /// Whether the value keeps the invariants of the data model, so that
    /// its encoding reads back as the value itself.
    pub fn is_well_formed(&self) -> (ok: bool)
        ensures
            ok == well_formed(self@),
        decreases self,
    {
        match self {
            RespValue::SimpleString(text) => holds_no_line_break(text.as_str().as_bytes()),
            RespValue::Error(text) => holds_no_line_break(text.as_str().as_bytes()),
            RespValue::Integer(_) => true,
            RespValue::BulkString(None) => true,
            RespValue::BulkString(Some(bytes)) => {
                let _ = bytes.len();
                true
            },
            RespValue::Array(None) => true,
            RespValue::Array(Some(items)) => {
                let ghost models = models_from(items@, 0);
                proof {
                    lemma_models_from(items@, 0);
                }
                let mut i: usize = 0;
                while i < items.len()
                    invariant
                        i <= items@.len(),
                        models.len() == items@.len(),
                        self@ == Resp::Array(Some(models)),
                        forall|j: int| 0 <= j < items@.len() ==> #[trigger] models[j] == items@[j]@,
                        forall|j: int| 0 <= j < items@.len() ==> decreases_to!(self => items@[j]),
                        forall|j: int| 0 <= j < i ==> well_formed(#[trigger] models[j]),
                    decreases items@.len() - i,
                {
                    if !items[i].is_well_formed() {
                        assert(!well_formed(models[i as int]));
                        return false;
                    }
                    i += 1;
                }
                true
            },
        }
    }

    /// Whether arrays are nested at most `limit` deep in the value.
    pub fn within_depth(&self, limit: usize) -> (ok: bool)
        ensures
            ok == (depth(self@) <= limit),
        decreases self,
    {
        match self {
            RespValue::Array(Some(items)) => {
                if limit == 0 {
                    return false;
                }
                let ghost models = models_from(items@, 0);
                proof {
                    lemma_models_from(items@, 0);
                }
                let mut i: usize = 0;
                while i < items.len()
                    invariant
                        i <= items@.len(),
                        limit > 0,
                        models.len() == items@.len(),
                        self@ == Resp::Array(Some(models)),
                        forall|j: int| 0 <= j < items@.len() ==> #[trigger] models[j] == items@[j]@,
                        forall|j: int| 0 <= j < items@.len() ==> decreases_to!(self => items@[j]),
                        forall|j: int| 0 <= j < i ==> depth(#[trigger] models[j]) <= limit - 1,
                    decreases items@.len() - i,
                {
                    if !items[i].within_depth(limit - 1) {
                        proof {
                            lemma_depth_from(models, 0, i as int);
                        }
                        return false;
                    }
                    i += 1;
                }
                proof {
                    lemma_depth_from_bound(models, 0, (limit - 1) as nat);
                }
                true
            },
            _ => true,
        }
    }

    /// The wire encoding of the value.
    pub fn serialize(&self) -> (out: Vec<u8>)
        ensures
            out@ == encode(self@),
    {
        let mut out: Vec<u8> = Vec::new();
        self.write_to(&mut out);
        assert(out@ =~= encode(self@));
        out
    }
}

} // verus!
