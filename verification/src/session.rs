//! The per-connection dispatcher.
//!
//! A session buffers the bytes received on one connection, cuts them into
//! values, runs each value as a command against the store and hands back
//! the encoded replies, in arrival order. It never waits: the caller reads
//! from the transport, feeds the bytes in and writes the replies out.

use crate::resp::command::{
    byte_strings, command_of_value, Command, CommandError, CommandModel,
};
use crate::resp::framing::lemma_value_bounds;
use crate::resp::parse::{parse_value, resp, ParseError, MAX_DEPTH};
use crate::resp::value::{encode, push_bytes, Resp, RespValue};
use crate::store::Store;
use vstd::prelude::*;
use vstd::slice::{slice_subrange, slice_to_vec};

verus! {

/// The message of the error reply for `e`.
pub open spec fn error_text(e: CommandError) -> Seq<char> {
    match e {
        CommandError::UnknownCommand => "ERR unknown command"@,
        CommandError::MissingArguments => "ERR wrong number of arguments"@,
    }
}

/// The message of the error reply for malformed input.
pub open spec fn syntax_error_text() -> Seq<char> {
    "ERR protocol error"@
}

/// What a command does to the keyspace, and its reply.
pub open spec fn apply(store: Map<Seq<u8>, Seq<u8>>, command: CommandModel) -> (
    Map<Seq<u8>, Seq<u8>>,
    Resp,
) {
    match command {
        CommandModel::SetKey { key, value } => (
            store.insert(key, value),
            Resp::SimpleString("OK"@),
        ),
        CommandModel::Get { key } => (
            store,
            Resp::BulkString(
                if store.contains_key(key) {
                    Some(store[key])
                } else {
                    None
                },
            ),
        ),
        CommandModel::Del { key } => (
            store.remove(key),
            Resp::Integer(
                if store.contains_key(key) {
                    1
                } else {
                    0
                },
            ),
        ),
    }
}

/// What a parsed value does to the keyspace, and its reply: the command's
/// where the value is a command, else an error reply and no change.
pub open spec fn respond(store: Map<Seq<u8>, Seq<u8>>, value: Resp) -> (
    Map<Seq<u8>, Seq<u8>>,
    Resp,
) {
    match command_of_value(value) {
        Ok(command) => apply(store, command),
        Err(e) => (store, Resp::Error(error_text(e))),
    }
}

/// Where a session stands after it has worked through its input.
pub struct Outcome {
    /// The keyspace.
    pub store: Map<Seq<u8>, Seq<u8>>,
    /// The encoded replies, oldest first.
    pub replies: Seq<Seq<u8>>,
    /// The bytes received that do not yet make a whole value.
    pub pending: Seq<u8>,
    /// Whether the session has ended on malformed input.
    pub closed: bool,
}

/// Works through `pending`: every whole value is answered in order; the
/// first malformed one is answered with an error and ends the session; an
/// unfinished value at the end stays pending.
pub open spec fn drain(store: Map<Seq<u8>, Seq<u8>>, pending: Seq<u8>) -> Outcome
    decreases pending.len(),
{
    match parse_value(pending, MAX_DEPTH as nat) {
        Err(ParseError::Incomplete) => Outcome {
            store,
            replies: Seq::empty(),
            pending,
            closed: false,
        },
        Err(ParseError::Syntax) => Outcome {
            store,
            replies: seq![encode(Resp::Error(syntax_error_text()))],
            pending: Seq::empty(),
            closed: true,
        },
        Ok((n, value)) => {
            proof {
                lemma_value_bounds(pending, MAX_DEPTH as nat);
            }
            let (next, reply) = respond(store, value);
            let rest = drain(next, pending.skip(n as int));
            Outcome {
                store: rest.store,
                replies: seq![encode(reply)] + rest.replies,
                pending: rest.pending,
                closed: rest.closed,
            }
        },
    }
}

/// Where a session that stands at `before` gets when `more` bytes arrive.
pub open spec fn resume(before: Outcome, more: Seq<u8>) -> Outcome {
    if before.closed {
        before
    } else {
        let after = drain(before.store, before.pending + more);
        Outcome {
            store: after.store,
            replies: before.replies + after.replies,
            pending: after.pending,
            closed: after.closed,
        }
    }
}

/// Runs a command against the store and builds its reply.
pub fn execute(store: &mut Store, command: Command) -> (reply: RespValue)
    requires
        old(store).wf(),
    ensures
        final(store).wf(),
        (final(store)@, reply@) == apply(old(store)@, command@),
{
    match command {
        Command::SetKey { key, value } => {
            store.set(key, value);
            RespValue::SimpleString("OK".to_owned())
        },
        Command::Get { key } => {
            match store.get(key.as_slice()) {
                Some(value) => RespValue::BulkString(Some(slice_to_vec(value.as_slice()))),
                None => RespValue::BulkString(None),
            }
        },
        Command::Del { key } => {
            if store.del(key.as_slice()) {
                RespValue::Integer(1)
            } else {
                RespValue::Integer(0)
            }
        },
    }
}

/// The error reply for a value that is no command.
pub fn error_reply(e: CommandError) -> (reply: RespValue)
    ensures
        reply@ == Resp::Error(error_text(e)),
{
    match e {
        CommandError::UnknownCommand => RespValue::Error("ERR unknown command".to_owned()),
        CommandError::MissingArguments => RespValue::Error(
            "ERR wrong number of arguments".to_owned(),
        ),
    }
}

/// The error reply for malformed input.
pub fn syntax_error_reply() -> (reply: RespValue)
    ensures
        reply@ == Resp::Error(syntax_error_text()),
{
    RespValue::Error("ERR protocol error".to_owned())
}

/// Answers one parsed value: runs it where it is a command, else builds the
/// error reply.
pub fn dispatch(store: &mut Store, value: &RespValue) -> (reply: RespValue)
    requires
        old(store).wf(),
    ensures
        final(store).wf(),
        (final(store)@, reply@) == respond(old(store)@, value@),
{
    match Command::from_value(value) {
        Ok(command) => execute(store, command),
        Err(e) => error_reply(e),
    }
}

/// What one attempt to cut a value off the buffer came to.
#[derive(Debug, PartialEq, Eq)]
pub enum Step {
    /// No whole value is buffered: read more from the transport.
    NeedData,
    /// A value was answered: send these bytes and try again.
    Reply(Vec<u8>),
    /// The input is malformed: send these bytes, then close the connection.
    Close(Vec<u8>),
}

/// The state of one connection.
pub struct Session {
    buffer: Vec<u8>,
    cursor: usize,
    closed: bool,
}

impl Session {
    /// Holds of every session that this module hands out.
    pub closed spec fn wf(&self) -> bool {
        &&& self.cursor <= self.buffer@.len()
        &&& self.closed ==> self.cursor == self.buffer@.len()
    }

    /// The bytes received and not yet consumed.
    pub closed spec fn pending(&self) -> Seq<u8> {
        self.buffer@.skip(self.cursor as int)
    }

    /// Whether the session has ended on malformed input.
    pub closed spec fn closed(&self) -> bool {
        self.closed
    }

    /// The number of bytes that are still held in the buffer though they
    /// were consumed already.
    pub closed spec fn consumed(&self) -> nat {
        self.cursor as nat
    }

    /// A session with nothing received.
    pub fn new() -> (session: Session)
        ensures
            session.wf(),
            session.pending() == Seq::<u8>::empty(),
            session.consumed() == 0,
            !session.closed(),
    {
        let session = Session { buffer: Vec::new(), cursor: 0, closed: false };
        assert(session.pending() =~= Seq::<u8>::empty());
        session
    }

    /// Whether the session has ended on malformed input.
    pub fn is_closed(&self) -> (closed: bool)
        ensures
            closed == self.closed(),
    {
        self.closed
    }

    /// The number of consumed bytes that the buffer still holds.
    pub fn consumed_len(&self) -> (n: usize)
        ensures
            n == self.consumed(),
    {
        self.cursor
    }

    /// The number of bytes received and not yet consumed.
    pub fn pending_len(&self) -> (n: usize)
        requires
            self.wf(),
        ensures
            n == self.pending().len(),
    {
        self.buffer.len() - self.cursor
    }

    /// Takes in bytes read from the transport. A closed session ignores them.
    pub fn feed(&mut self, bytes: &[u8])
        requires
            old(self).wf(),
        ensures
            final(self).wf(),
            final(self).closed() == old(self).closed(),
            final(self).consumed() == old(self).consumed(),
            final(self).pending() == if old(self).closed() {
                old(self).pending()
            } else {
                old(self).pending() + bytes@
            },
    {
        if !self.closed {
            push_bytes(&mut self.buffer, bytes);
            assert(self.pending() =~= old(self).pending() + bytes@);
        }
    }

    /// Drops the consumed bytes from the front of the buffer.
    pub fn compact(&mut self)
        requires
            old(self).wf(),
        ensures
            final(self).wf(),
            final(self).closed() == old(self).closed(),
            final(self).pending() == old(self).pending(),
            final(self).consumed() == 0,
    {
        if self.cursor > 0 {
            let rest = slice_to_vec(
                slice_subrange(self.buffer.as_slice(), self.cursor, self.buffer.len()),
            );
            self.buffer = rest;
            self.cursor = 0;
            assert(self.pending() =~= old(self).pending());
        }
    }

    /// Tries to cut one value off the buffer and answer it.
    pub fn step(&mut self, store: &mut Store) -> (step: Step)
        requires
            old(self).wf(),
            old(store).wf(),
        ensures
            final(self).wf(),
            final(store).wf(),
            match step {
                Step::NeedData => {
                    &&& parse_value(old(self).pending(), MAX_DEPTH as nat) == Err::<(nat, Resp), _>(
                        ParseError::Incomplete,
                    )
                    &&& final(store)@ == old(store)@
                    &&& final(self).pending() == old(self).pending()
                    &&& final(self).consumed() == old(self).consumed()
                    &&& final(self).closed() == old(self).closed()
                },
                Step::Reply(bytes) => {
                    &&& parse_value(old(self).pending(), MAX_DEPTH as nat) matches Ok((n, value))
                    &&& final(store)@ == respond(old(store)@, value).0
                    &&& bytes@ == encode(respond(old(store)@, value).1)
                    &&& final(self).pending() == old(self).pending().skip(n as int)
                    &&& final(self).consumed() == old(self).consumed() + n
                    &&& !final(self).closed()
                    &&& !old(self).closed()
                },
                Step::Close(bytes) => {
                    &&& parse_value(old(self).pending(), MAX_DEPTH as nat) == Err::<(nat, Resp), _>(
                        ParseError::Syntax,
                    )
                    &&& bytes@ == encode(Resp::Error(syntax_error_text()))
                    &&& final(store)@ == old(store)@
                    &&& final(self).pending() == Seq::<u8>::empty()
                    &&& final(self).consumed() == old(self).consumed() + old(self).pending().len()
                    &&& final(self).closed()
                    &&& !old(self).closed()
                },
            },
    {
        let tail = slice_subrange(self.buffer.as_slice(), self.cursor, self.buffer.len());
        match resp(tail) {
            Ok((n, value)) => {
                let reply = dispatch(store, &value);
                self.cursor = self.cursor + n;
                assert(self.pending() =~= old(self).pending().skip(n as int));
                Step::Reply(reply.serialize())
            },
            Err(ParseError::Incomplete) => Step::NeedData,
            Err(ParseError::Syntax) => {
                self.cursor = self.buffer.len();
                self.closed = true;
                assert(self.pending() =~= Seq::<u8>::empty());
                Step::Close(syntax_error_reply().serialize())
            },
        }
    }

    /// Takes in bytes read from the transport and answers every whole value
    /// that is now buffered. The replies come back encoded, oldest first;
    /// afterwards `is_closed` says whether the connection is to be closed.
    pub fn receive(&mut self, store: &mut Store, bytes: &[u8]) -> (replies: Vec<Vec<u8>>)
        requires
            old(self).wf(),
            old(store).wf(),
        ensures
            final(self).wf(),
            final(store).wf(),
            !old(self).closed() ==> final(self).consumed() == 0,
            (Outcome {
                store: final(store)@,
                replies: byte_strings(replies@),
                pending: final(self).pending(),
                closed: final(self).closed(),
            }) == resume(
                (Outcome {
                    store: old(store)@,
                    replies: Seq::empty(),
                    pending: old(self).pending(),
                    closed: old(self).closed(),
                }),
                bytes@,
            ),
    {
        let mut replies: Vec<Vec<u8>> = Vec::new();
        assert(byte_strings(replies@) =~= Seq::<Seq<u8>>::empty());
        if self.closed {
            return replies;
        }
        self.feed(bytes);
        let ghost total = drain(store@, self.pending());
        let mut done = false;
        while !done
            invariant
                self.wf(),
                store.wf(),
                !done ==> !self.closed(),
                total == join(
                    byte_strings(replies@),
                    if done {
                        (Outcome {
                            store: store@,
                            replies: Seq::empty(),
                            pending: self.pending(),
                            closed: self.closed(),
                        })
                    } else {
                        drain(store@, self.pending())
                    },
                ),
            decreases
                    (if done {
                        0
                    } else {
                        self.pending().len() + 1
                    }),
        {
            let ghost before = byte_strings(replies@);
            let ghost pending = self.pending();
            proof {
                if parse_value(pending, MAX_DEPTH as nat) is Ok {
                    lemma_value_bounds(pending, MAX_DEPTH as nat);
                }
            }
            match self.step(store) {
                Step::NeedData => {
                    done = true;
                },
                Step::Reply(reply) => {
                    let ghost sent = reply@;
                    replies.push(reply);
                    proof {
                        assert(byte_strings(replies@) =~= before + seq![sent]);
                        let rest = drain(store@, self.pending());
                        assert(before + (seq![sent] + rest.replies) =~= (before + seq![sent])
                            + rest.replies);
                    }
                },
                Step::Close(reply) => {
                    let ghost sent = reply@;
                    replies.push(reply);
                    proof {
                        assert(byte_strings(replies@) =~= before + seq![sent]);
                        assert((before + seq![sent]) + Seq::<Seq<u8>>::empty() =~= before
                            + seq![sent]);
                    }
                    done = true;
                },
            }
        }
        self.compact();
        proof {
            assert(Seq::<Seq<u8>>::empty() + total.replies =~= total.replies);
            assert(byte_strings(replies@) + Seq::<Seq<u8>>::empty() =~= byte_strings(replies@));
        }
        replies
    }
}

/// `outcome` with `earlier` replies in front of its own.
pub open spec fn join(earlier: Seq<Seq<u8>>, outcome: Outcome) -> Outcome {
    Outcome {
        store: outcome.store,
        replies: earlier + outcome.replies,
        pending: outcome.pending,
        closed: outcome.closed,
    }
}

} // verus!
