//! Commands: what a request frame asks the store to do.
use vstd::prelude::*;
use vstd::utf8::*;

use crate::codec::string_from_utf8;
use crate::frame::{Frame, FrameModel};

verus! {

/// A request to the store.
#[derive(Debug, PartialEq, Eq)]
pub enum Command {
    Get { key: String },
    Put { key: String, value: Vec<u8> },
}

pub enum CommandModel {
    Get { key: Seq<char> },
    Put { key: Seq<char>, value: Seq<u8> },
}

impl Command {
    pub open spec fn model(self) -> CommandModel {
        match self {
            Command::Get { key } => CommandModel::Get { key: key@ },
            Command::Put { key, value } => CommandModel::Put { key: key@, value: value@ },
        }
    }
}

/// Why a frame is not a command.
#[derive(Debug, Clone, Copy, PartialEq, Eq)]
pub enum CommandError {
    /// Not an array whose first element is a byte string.
    NotACommand,
    /// The name is neither GET nor SET.
    Unknown,
    /// A known name with the wrong number of arguments.
    WrongArity,
    /// An argument of the wrong kind: keys and values are byte strings, and
    /// keys are UTF-8 text.
    BadArgument,
}

/// The byte with ASCII lower-case letters raised to upper case.
pub open spec fn ascii_upper(c: u8) -> u8 {
    if 97 <= c <= 122 {
        (c - 32) as u8
    } else {
        c
    }
}

/// `name` spells `word` (given in upper case), ignoring ASCII case.
pub open spec fn names(name: Seq<u8>, word: Seq<u8>) -> bool {
    name.len() == word.len() && forall|i: int| 0 <= i < name.len() ==> ascii_upper(#[trigger] name[i]) == word[i]
}

pub open spec fn get_word() -> Seq<u8> {
    seq![71u8, 69u8, 84u8]
}

pub open spec fn set_word() -> Seq<u8> {
    seq![83u8, 69u8, 84u8]
}

/// The key an argument frame gives: a byte string of UTF-8 text.
pub open spec fn key_arg(f: FrameModel) -> Option<Seq<char>> {
    match f {
        FrameModel::Bulk(b) => if valid_utf8(b) {
            Some(decode_utf8(b))
        } else {
            None
        },
        _ => None,
    }
}

/// The command a frame denotes.
pub open spec fn command_of(f: FrameModel) -> Result<CommandModel, CommandError> {
    match f {
        FrameModel::Array(items) => if items.len() == 0 || !(items[0] is Bulk) {
            Err(CommandError::NotACommand)
        } else {
            let name = items[0]->Bulk_0;
            if names(name, get_word()) {
                if items.len() != 2 {
                    Err(CommandError::WrongArity)
                } else {
                    match key_arg(items[1]) {
                        Some(key) => Ok(CommandModel::Get { key }),
                        None => Err(CommandError::BadArgument),
                    }
                }
            } else if names(name, set_word()) {
                if items.len() != 3 {
                    Err(CommandError::WrongArity)
                } else {
                    match (key_arg(items[1]), items[2]) {
                        (Some(key), FrameModel::Bulk(value)) => Ok(CommandModel::Put { key, value }),
                        _ => Err(CommandError::BadArgument),
                    }
                }
            } else {
                Err(CommandError::Unknown)
            }
        },
        _ => Err(CommandError::NotACommand),
    }
}

fn upper(c: u8) -> (r: u8)
    ensures
        r == ascii_upper(c),
{
    if 97 <= c && c <= 122 {
        c - 32
    } else {
        c
    }
}

/// Whether `name` spells the three upper-case letters `a`, `b`, `c`,
/// ignoring ASCII case.
fn spells(name: &Vec<u8>, a: u8, b: u8, c: u8) -> (r: bool)
    ensures
        r == names(name@, seq![a, b, c]),
{
    if name.len() != 3 {
        return false;
    }
    let r = upper(name[0]) == a && upper(name[1]) == b && upper(name[2]) == c;
    proof {
        if r {
            assert forall|i: int| 0 <= i < name@.len() implies ascii_upper(#[trigger] name@[i])
                == seq![a, b, c][i] by {
                if i == 0 {
                } else if i == 1 {
                } else {
                }
            }
        }
    }
    r
}

fn key_of(f: &Frame) -> (r: Option<String>)
    ensures
        r matches Some(k) ==> key_arg(f.model()) == Some(k@),
        r is None ==> key_arg(f.model()) is None,
{
    match f {
        Frame::Bulk(b) => string_from_utf8(b.clone()),
        _ => None,
    }
}

/// Reads the command that a request frame asks for.
pub fn parse_command(frame: &Frame) -> (r: Result<Command, CommandError>)
    ensures
        r matches Ok(c) ==> command_of(frame.model()) == Ok::<CommandModel, CommandError>(c.model()),
        r matches Err(e) ==> command_of(frame.model()) == Err::<CommandModel, CommandError>(e),
{
    let items = match frame {
        Frame::Array(items) => items,
        _ => return Err(CommandError::NotACommand),
    };
    let ghost m = frame.model()->Array_0;
    if items.len() == 0 {
        return Err(CommandError::NotACommand);
    }
    assert(m[0] == items@[0].model());
    let name = match &items[0] {
        Frame::Bulk(name) => name,
        _ => return Err(CommandError::NotACommand),
    };
    if spells(name, 71, 69, 84) {
        if items.len() != 2 {
            return Err(CommandError::WrongArity);
        }
        assert(m[1] == items@[1].model());
        match key_of(&items[1]) {
            Some(key) => Ok(Command::Get { key }),
            None => Err(CommandError::BadArgument),
        }
    } else if spells(name, 83, 69, 84) {
        if items.len() != 3 {
            return Err(CommandError::WrongArity);
        }
        assert(m[1] == items@[1].model());
        assert(m[2] == items@[2].model());
        match (key_of(&items[1]), &items[2]) {
            (Some(key), Frame::Bulk(value)) => Ok(Command::Put { key, value: value.clone() }),
            _ => Err(CommandError::BadArgument),
        }
    } else {
        Err(CommandError::Unknown)
    }
}

} // verus!
