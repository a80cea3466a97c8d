//! Pipelining: what a session answers depends on the bytes it receives, not
//! on how the transport cuts them into reads.

use crate::resp::framing::{lemma_value_bounds, lemma_value_settled};
use crate::resp::parse::{parse_value, ParseError, MAX_DEPTH};
use crate::resp::roundtrip::lemma_frame_value;
use crate::resp::value::{depth, encode, encode_from, well_formed, Resp};
use crate::session::{drain, respond, resume, Outcome};
use vstd::prelude::*;

verus! {

/// A session that has received nothing yet.
pub open spec fn fresh(store: Map<Seq<u8>, Seq<u8>>) -> Outcome {
    Outcome { store, replies: Seq::empty(), pending: Seq::empty(), closed: false }
}

/// Where a fresh session gets when the reads `chunks` arrive one by one.
pub open spec fn feed_all(store: Map<Seq<u8>, Seq<u8>>, chunks: Seq<Seq<u8>>) -> Outcome
    decreases chunks.len(),
{
    if chunks.len() == 0 {
        fresh(store)
    } else {
        resume(feed_all(store, chunks.drop_last()), chunks.last())
    }
}

/// The reads `chunks` laid end to end.
pub open spec fn stream_of(chunks: Seq<Seq<u8>>) -> Seq<u8>
    decreases chunks.len(),
{
    if chunks.len() == 0 {
        Seq::empty()
    } else {
        stream_of(chunks.drop_last()) + chunks.last()
    }
}

/// The keyspace after the values `values[from..]` were answered in order,
/// and their encoded replies.
pub open spec fn respond_all(store: Map<Seq<u8>, Seq<u8>>, values: Seq<Resp>, from: int) -> (
    Map<Seq<u8>, Seq<u8>>,
    Seq<Seq<u8>>,
)
    decreases values.len() - from,
{
    if 0 <= from < values.len() {
        let (next, reply) = respond(store, values[from]);
        let (last, replies) = respond_all(next, values, from + 1);
        (last, seq![encode(reply)] + replies)
    } else {
        (store, Seq::empty())
    }
}

/// Receiving `a` and then `b` comes to the same as receiving `a + b` at once:
/// the same replies in the same order, the same keyspace, the same bytes
/// left pending, the same decision to close.
pub proof fn law_split_read(store: Map<Seq<u8>, Seq<u8>>, a: Seq<u8>, b: Seq<u8>)
    ensures
        resume(drain(store, a), b) == drain(store, a + b),
    decreases a.len(),
{
    let limit = MAX_DEPTH as nat;
    lemma_value_settled(a, b, limit);
    match parse_value(a, limit) {
        Err(ParseError::Incomplete) => {
            let whole = drain(store, a + b);
            assert(Seq::<Seq<u8>>::empty() + whole.replies =~= whole.replies);
        },
        Err(ParseError::Syntax) => {},
        Ok((n, value)) => {
            lemma_value_bounds(a, limit);
            let (next, reply) = respond(store, value);
            assert((a + b).skip(n as int) =~= a.skip(n as int) + b);
            law_split_read(next, a.skip(n as int), b);
            let short = drain(next, a.skip(n as int));
            if !short.closed {
                let more = drain(short.store, short.pending + b);
                assert((seq![encode(reply)] + short.replies) + more.replies =~= seq![encode(reply)]
                    + (short.replies + more.replies));
            }
        },
    }
}

/// However the transport cuts a byte stream into reads, a session that
/// starts fresh ends where it would have ended had the whole stream come in
/// one read.
pub proof fn law_chunking(store: Map<Seq<u8>, Seq<u8>>, chunks: Seq<Seq<u8>>)
    ensures
        feed_all(store, chunks) == drain(store, stream_of(chunks)),
    decreases chunks.len(),
{
    if chunks.len() == 0 {
        assert(parse_value(Seq::<u8>::empty(), MAX_DEPTH as nat) == Err::<(nat, Resp), _>(
            ParseError::Incomplete,
        ));
    } else {
        law_chunking(store, chunks.drop_last());
        law_split_read(store, stream_of(chunks.drop_last()), chunks.last());
    }
}

/// The encodings of well-formed values, one after the other and followed by
/// nothing, are answered one reply per value, in order; nothing stays
/// pending and the session stays open.
pub proof fn law_one_reply_per_value(store: Map<Seq<u8>, Seq<u8>>, values: Seq<Resp>, from: int)
    requires
        0 <= from <= values.len(),
        forall|i: int|
            0 <= i < values.len() ==> well_formed(#[trigger] values[i]) && depth(values[i])
                <= MAX_DEPTH,
    ensures
        drain(store, encode_from(values, from)) == (Outcome {
            store: respond_all(store, values, from).0,
            replies: respond_all(store, values, from).1,
            pending: Seq::empty(),
            closed: false,
        }),
        respond_all(store, values, from).1.len() == values.len() - from,
    decreases values.len() - from,
{
    let limit = MAX_DEPTH as nat;
    if from < values.len() {
        let first = values[from];
        let tail = encode_from(values, from + 1);
        lemma_frame_value(first, tail, limit);
        let (next, reply) = respond(store, first);
        assert((encode(first) + tail).skip(encode(first).len() as int) =~= tail);
        law_one_reply_per_value(next, values, from + 1);
    }
}

} // verus!
