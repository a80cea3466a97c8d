//! The command model: from a parsed array to one of the supported commands.
//!
//! Command names are matched byte for byte against `SET`, `GET` and `DEL`.
//! Matching is case-sensitive on purpose: `set` is an unknown command.

use crate::resp::value::{lemma_models_from, models_from, Resp, RespValue};
use vstd::prelude::*;
use vstd::slice::slice_to_vec;
use vstd::utf8::encode_utf8;

verus! {

/// A command with its arguments, each a binary-safe byte string.
#[derive(Debug, PartialEq, Eq)]
pub enum Command {
    SetKey { key: Vec<u8>, value: Vec<u8> },
    Get { key: Vec<u8> },
    Del { key: Vec<u8> },
}

/// Why a value is not a command.
#[derive(Debug, PartialEq, Eq, Clone, Copy)]
pub enum CommandError {
    /// The value names no supported command.
    UnknownCommand,
    /// The command has too few or too many arguments, or one that is no string.
    MissingArguments,
}

/// The mathematical value that a `Command` stands for.
pub enum CommandModel {
    SetKey { key: Seq<u8>, value: Seq<u8> },
    Get { key: Seq<u8> },
    Del { key: Seq<u8> },
}

impl View for Command {
    type V = CommandModel;

    open spec fn view(&self) -> CommandModel {
        match self {
            Command::SetKey { key, value } => CommandModel::SetKey { key: key@, value: value@ },
            Command::Get { key } => CommandModel::Get { key: key@ },
            Command::Del { key } => CommandModel::Del { key: key@ },
        }
    }
}

pub open spec fn token_set() -> Seq<u8> {
    seq![0x53u8, 0x45u8, 0x54u8]
}

pub open spec fn token_get() -> Seq<u8> {
    seq![0x47u8, 0x45u8, 0x54u8]
}

pub open spec fn token_del() -> Seq<u8> {
    seq![0x44u8, 0x45u8, 0x4cu8]
}

/// Whether `name` is one of the supported command names.
pub open spec fn is_command_name(name: Seq<u8>) -> bool {
    name == token_set() || name == token_get() || name == token_del()
}

/// The command that a name followed by its arguments spells. `SET` takes
/// exactly two arguments, `GET` and `DEL` exactly one.
pub open spec fn command_of_parts(parts: Seq<Seq<u8>>) -> Result<CommandModel, CommandError> {
    if parts.len() == 0 {
        Err(CommandError::UnknownCommand)
    } else if parts[0] == token_set() {
        if parts.len() == 3 {
            Ok(CommandModel::SetKey { key: parts[1], value: parts[2] })
        } else {
            Err(CommandError::MissingArguments)
        }
    } else if parts[0] == token_get() {
        if parts.len() == 2 {
            Ok(CommandModel::Get { key: parts[1] })
        } else {
            Err(CommandError::MissingArguments)
        }
    } else if parts[0] == token_del() {
        if parts.len() == 2 {
            Ok(CommandModel::Del { key: parts[1] })
        } else {
            Err(CommandError::MissingArguments)
        }
    } else {
        Err(CommandError::UnknownCommand)
    }
}

/// The bytes of a value that can name a command or be its argument: those of
/// a bulk string that is not null, or of a simple string.
pub open spec fn string_bytes(v: Resp) -> Option<Seq<u8>> {
    match v {
        Resp::BulkString(Some(bytes)) => Some(bytes),
        Resp::SimpleString(text) => Some(encode_utf8(text)),
        _ => None,
    }
}

/// The command that a value spells. A value that is no array with a
/// supported name in front is an unknown command; after a supported name, an
/// element that is no string counts as a missing argument.
pub open spec fn command_of_value(v: Resp) -> Result<CommandModel, CommandError> {
    match v {
        Resp::Array(Some(items)) => if items.len() == 0 || string_bytes(items[0]) is None
            || !is_command_name(string_bytes(items[0])->Some_0) {
            Err(CommandError::UnknownCommand)
        } else if exists|i: int| 0 <= i < items.len() && string_bytes(#[trigger] items[i]) is None {
            Err(CommandError::MissingArguments)
        } else {
            command_of_parts(Seq::new(items.len(), |i: int| string_bytes(items[i])->Some_0))
        },
        _ => Err(CommandError::UnknownCommand),
    }
}

/// The byte strings that a vector of byte vectors holds.
pub open spec fn byte_strings(parts: Seq<Vec<u8>>) -> Seq<Seq<u8>> {
    Seq::new(parts.len(), |i: int| parts[i]@)
}

fn is_token(name: &[u8], a: u8, b: u8, c: u8) -> (same: bool)
    ensures
        same == (name@ == seq![a, b, c]),
{
    if name.len() == 3 && name[0] == a && name[1] == b && name[2] == c {
        assert(name@ =~= seq![a, b, c]);
        true
    } else {
        proof {
            let token = seq![a, b, c];
            assert(token.len() == 3 && token[0] == a && token[1] == b && token[2] == c);
        }
        false
    }
}

/// The bytes of `value` where it is a string, copied out.
fn string_of(value: &RespValue) -> (bytes: Option<Vec<u8>>)
    ensures
        match bytes {
            Some(b) => string_bytes(value@) == Some(b@),
            None => string_bytes(value@) is None,
        },
{
    match value {
        RespValue::BulkString(Some(bytes)) => Some(slice_to_vec(bytes.as_slice())),
        RespValue::SimpleString(text) => Some(slice_to_vec(text.as_str().as_bytes())),
        _ => None,
    }
}

impl Command {
    /// Builds a command from its name and arguments.
    pub fn from_parts(parts: Vec<Vec<u8>>) -> (r: Result<Command, CommandError>)
        ensures
            match r {
                Ok(command) => command_of_parts(byte_strings(parts@)) == Ok::<_, CommandError>(
                    command@,
                ),
                Err(e) => command_of_parts(byte_strings(parts@)) == Err::<CommandModel, _>(e),
            },
    {
        let mut parts = parts;
        let ghost given = byte_strings(parts@);
        if parts.len() == 0 {
            return Err(CommandError::UnknownCommand);
        }
        assert(given[0] == parts@[0]@);
        let is_set = is_token(parts[0].as_slice(), 0x53, 0x45, 0x54);
        let is_get = is_token(parts[0].as_slice(), 0x47, 0x45, 0x54);
        let is_del = is_token(parts[0].as_slice(), 0x44, 0x45, 0x4c);
        if is_set {
            if parts.len() != 3 {
                return Err(CommandError::MissingArguments);
            }
            assert(given[1] == parts@[1]@ && given[2] == parts@[2]@);
            let value = parts.pop().unwrap();
            let key = parts.pop().unwrap();
            Ok(Command::SetKey { key, value })
        } else if is_get {
            if parts.len() != 2 {
                return Err(CommandError::MissingArguments);
            }
            assert(given[1] == parts@[1]@);
            let key = parts.pop().unwrap();
            Ok(Command::Get { key })
        } else if is_del {
            if parts.len() != 2 {
                return Err(CommandError::MissingArguments);
            }
            assert(given[1] == parts@[1]@);
            let key = parts.pop().unwrap();
            Ok(Command::Del { key })
        } else {
            Err(CommandError::UnknownCommand)
        }
    }

    /// Reads a command out of a parsed value.
    pub fn from_value(value: &RespValue) -> (r: Result<Command, CommandError>)
        ensures
            match r {
                Ok(command) => command_of_value(value@) == Ok::<_, CommandError>(command@),
                Err(e) => command_of_value(value@) == Err::<CommandModel, _>(e),
            },
    {
        let items = match value {
            RespValue::Array(Some(items)) => items,
            _ => {
                return Err(CommandError::UnknownCommand);
            },
        };
        let ghost models = models_from(items@, 0);
        proof {
            lemma_models_from(items@, 0);
        }
        if items.len() == 0 {
            return Err(CommandError::UnknownCommand);
        }
        let name = match string_of(&items[0]) {
            Some(name) => name,
            None => {
                return Err(CommandError::UnknownCommand);
            },
        };
        let known = is_token(name.as_slice(), 0x53, 0x45, 0x54) || is_token(
            name.as_slice(),
            0x47,
            0x45,
            0x54,
        ) || is_token(name.as_slice(), 0x44, 0x45, 0x4c);
        if !known {
            return Err(CommandError::UnknownCommand);
        }
        let mut parts: Vec<Vec<u8>> = Vec::new();
        parts.push(name);
        let mut i: usize = 1;
        while i < items.len()
            invariant
                1 <= i <= items@.len(),
                parts@.len() == i,
                models.len() == items@.len(),
                value@ == Resp::Array(Some(models)),
                is_command_name(parts@[0]@),
                forall|j: int| 0 <= j < items@.len() ==> #[trigger] models[j] == items@[j]@,
                forall|j: int|
                    0 <= j < i ==> string_bytes(#[trigger] models[j]) == Some(parts@[j]@),
            decreases items@.len() - i,
        {
            match string_of(&items[i]) {
                Some(bytes) => {
                    parts.push(bytes);
                },
                None => {
                    assert(string_bytes(models[i as int]) is None);
                    return Err(CommandError::MissingArguments);
                },
            }
            i += 1;
        }
        proof {
            let wanted = Seq::new(models.len(), |i: int| string_bytes(models[i])->Some_0);
            assert(byte_strings(parts@) =~= wanted);
        }
        Command::from_parts(parts)
    }
}

} // verus!
