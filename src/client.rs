//! The client side: the request frame for each command, and what each reply
//! means.
use vstd::prelude::*;
use vstd::utf8::*;

use crate::codec::encode;
use crate::command::{command_of, get_word, set_word, Command, CommandError, CommandModel};
use crate::frame::{encode_model, Frame, FrameModel};
use crate::server::response_to;

verus! {

/// Why a call did not succeed.
#[derive(Debug, PartialEq, Eq)]
pub enum ClientError {
    /// The server answered with an error frame holding this message.
    Server(String),
    /// The server answered with a frame that does not fit the request.
    UnexpectedFrame,
}

/// The request frame for a command: its name and arguments as byte strings.
pub open spec fn request_model(c: CommandModel) -> FrameModel {
    match c {
        CommandModel::Get { key } => FrameModel::Array(
            seq![FrameModel::Bulk(get_word()), FrameModel::Bulk(encode_utf8(key))],
        ),
        CommandModel::Put { key, value } => FrameModel::Array(
            seq![
                FrameModel::Bulk(set_word()),
                FrameModel::Bulk(encode_utf8(key)),
                FrameModel::Bulk(value),
            ],
        ),
    }
}

fn text_bytes(s: &String) -> (r: Frame)
    ensures
        r.model() == FrameModel::Bulk(encode_utf8(s@)),
{
    Frame::Bulk(vstd::slice::slice_to_vec(s.as_str().as_bytes()))
}

/// The request frame for `cmd`; the server reads `cmd` back from it.
pub fn request_frame(cmd: &Command) -> (r: Frame)
    ensures
        r.model() == request_model(cmd.model()),
        command_of(r.model()) == Ok::<CommandModel, CommandError>(cmd.model()),
{
    match cmd {
        Command::Get { key } => {
            let mut items: Vec<Frame> = Vec::new();
            let name: Vec<u8> = vec![71u8, 69u8, 84u8];
            assert(name@ =~= get_word());
            items.push(Frame::Bulk(name));
            items.push(text_bytes(key));
            let r = Frame::Array(items);
            proof {
                assert(r.model()->Array_0[0] == items@[0].model());
                assert(r.model()->Array_0[1] == items@[1].model());
                assert(r.model()->Array_0 =~= request_model(cmd.model())->Array_0);
                encode_utf8_valid_utf8(key@);
                encode_utf8_decode_utf8(key@);
                assert(r.model()->Array_0[0]->Bulk_0 =~= get_word());
            }
            r
        },
        Command::Put { key, value } => {
            let mut items: Vec<Frame> = Vec::new();
            let name: Vec<u8> = vec![83u8, 69u8, 84u8];
            assert(name@ =~= set_word());
            items.push(Frame::Bulk(name));
            items.push(text_bytes(key));
            items.push(Frame::Bulk(vstd::slice::slice_to_vec(value.as_slice())));
            let r = Frame::Array(items);
            proof {
                assert(r.model()->Array_0[0] == items@[0].model());
                assert(r.model()->Array_0[1] == items@[1].model());
                assert(r.model()->Array_0 =~= request_model(cmd.model())->Array_0);
                encode_utf8_valid_utf8(key@);
                encode_utf8_decode_utf8(key@);
                assert(r.model()->Array_0[2] == items@[2].model());
                assert(r.model()->Array_0[0]->Bulk_0 =~= set_word());
                assert(!(r.model()->Array_0[0]->Bulk_0 =~= get_word()));
            }
            r
        },
    }
}

/// The bytes to send for `cmd`.
pub fn request_bytes(cmd: &Command) -> (r: Vec<u8>)
    ensures
        r@ == encode_model(request_model(cmd.model())),
{
    encode(&request_frame(cmd))
}

/// What the reply to a GET means: the value, no value, or a failure.
pub fn get_reply(reply: Frame) -> (r: Result<Option<Vec<u8>>, ClientError>)
    ensures
        match reply.model() {
            FrameModel::Bulk(b) => r matches Ok(Some(v)) && v@ == b,
            FrameModel::Null => r matches Ok(None),
            FrameModel::Error(msg) => r matches Err(ClientError::Server(t)) && t@ == msg,
            _ => r matches Err(ClientError::UnexpectedFrame),
        },
{
    match reply {
        Frame::Bulk(b) => Ok(Some(b)),
        Frame::Null => Ok(None),
        Frame::Error(msg) => Err(ClientError::Server(msg)),
        _ => Err(ClientError::UnexpectedFrame),
    }
}

/// What the reply to a SET means: done, or a failure.
pub fn set_reply(reply: Frame) -> (r: Result<(), ClientError>)
    ensures
        match reply.model() {
            FrameModel::Simple(t) => if t == "OK"@ {
                r is Ok
            } else {
                r matches Err(ClientError::UnexpectedFrame)
            },
            FrameModel::Error(msg) => r matches Err(ClientError::Server(t)) && t@ == msg,
            _ => r matches Err(ClientError::UnexpectedFrame),
        },
{
    match reply {
        Frame::Simple(t) => if t == "OK".to_owned() {
            Ok(())
        } else {
            Err(ClientError::UnexpectedFrame)
        },
        Frame::Error(msg) => Err(ClientError::Server(msg)),
        _ => Err(ClientError::UnexpectedFrame),
    }
}

/// A SET answered by the server is acknowledged, and a GET of the same key
/// afterwards gives back the value that was set.
pub proof fn lemma_set_then_get(m: Map<Seq<char>, Seq<u8>>, key: Seq<char>, value: Seq<u8>)
    ensures
        response_to(m, request_model(CommandModel::Put { key, value })) == (
            m.insert(key, value),
            FrameModel::Simple("OK"@),
        ),
        response_to(m.insert(key, value), request_model(CommandModel::Get { key })) == (
            m.insert(key, value),
            FrameModel::Bulk(value),
        ),
{
    encode_utf8_valid_utf8(key);
    encode_utf8_decode_utf8(key);
    assert(!(set_word() =~= get_word()) && set_word()[0] != get_word()[0]);
}

} // verus!
