//! The server side of one connection: buffering what arrives, and answering
//! each request frame from the store.
use vstd::prelude::*;

use crate::codec::{after_read, encode, Decoded, FrameBuffer};
use crate::command::{command_of, parse_command, Command, CommandError, CommandModel};
use crate::frame::{encode_model, lemma_parse_encode, parse, well_sized, Frame, FrameModel, Parsed};
use crate::store::Store;

verus! {

/// Text of the error frame sent for a request that is not a command.
pub open spec fn error_text(e: CommandError) -> Seq<char> {
    match e {
        CommandError::NotACommand => "ERR request is not a command"@,
        CommandError::Unknown => "ERR unknown command"@,
        CommandError::WrongArity => "ERR wrong number of arguments"@,
        CommandError::BadArgument => "ERR invalid argument"@,
    }
}

/// Text of the error frame sent for bytes that are not a frame.
pub open spec fn invalid_frame_text() -> Seq<char> {
    "ERR invalid frame"@
}

/// The store after a request, and the response frame.
pub open spec fn response_to(m: Map<Seq<char>, Seq<u8>>, request: FrameModel) -> (
    Map<Seq<char>, Seq<u8>>,
    FrameModel,
) {
    match command_of(request) {
        Ok(CommandModel::Get { key }) => (
            m,
            if m.contains_key(key) {
                FrameModel::Bulk(m[key])
            } else {
                FrameModel::Null
            },
        ),
        Ok(CommandModel::Put { key, value }) => (m.insert(key, value), FrameModel::Simple("OK"@)),
        Err(e) => (m, FrameModel::Error(error_text(e))),
    }
}

/// The message of the error frame for `e`.
pub fn error_message(e: CommandError) -> (r: String)
    ensures
        r@ == error_text(e),
{
    match e {
        CommandError::NotACommand => "ERR request is not a command".to_owned(),
        CommandError::Unknown => "ERR unknown command".to_owned(),
        CommandError::WrongArity => "ERR wrong number of arguments".to_owned(),
        CommandError::BadArgument => "ERR invalid argument".to_owned(),
    }
}

/// Applies one request frame to the store and gives the response frame.
pub fn respond(store: &mut Store, request: &Frame) -> (r: Frame)
    requires
        old(store).wf(),
    ensures
        final(store).wf(),
        (final(store)@, r.model()) == response_to(old(store)@, request.model()),
{
    match parse_command(request) {
        Ok(Command::Get { key }) => match store.get(&key) {
            Some(value) => Frame::Bulk(value),
            None => Frame::Null,
        },
        Ok(Command::Put { key, value }) => {
            store.set(key, value);
            Frame::Simple("OK".to_owned())
        },
        Err(e) => Frame::Error(error_message(e)),
    }
}

/// One step of a connection from pending bytes `buf` and store contents
/// `m`: the bytes left, the store after, and the response frame, if any.
/// A whole request gets the response `response_to` gives; bytes that do not
/// start a frame are dropped and get an error frame; an incomplete request
/// waits for more bytes.
pub open spec fn serve_step(buf: Seq<u8>, m: Map<Seq<char>, Seq<u8>>) -> (
    Seq<u8>,
    Map<Seq<char>, Seq<u8>>,
    Option<FrameModel>,
) {
    match parse(buf) {
        Parsed::Done(request, _) => (after_read(buf), response_to(m, request).0, Some(response_to(m, request).1)),
        Parsed::Invalid => (after_read(buf), m, Some(FrameModel::Error(invalid_frame_text()))),
        Parsed::Incomplete => (buf, m, None),
    }
}

/// The server's side of one connection.
pub struct Connection {
    input: FrameBuffer,
}

impl View for Connection {
    type V = Seq<u8>;

    /// Bytes received and not yet answered.
    closed spec fn view(&self) -> Seq<u8> {
        self.input@
    }
}

impl Connection {
    pub fn new() -> (r: Connection)
        ensures
            r@ == Seq::<u8>::empty(),
    {
        Connection { input: FrameBuffer::new() }
    }

    /// Adds bytes read from the peer.
    pub fn receive(&mut self, data: &[u8])
        ensures
            final(self)@ == old(self)@ + data@,
    {
        self.input.receive(data);
    }

    /// Answers the first pending request: the bytes of the response frame,
    /// or `None` while the request is incomplete.
    pub fn serve(&mut self, store: &mut Store) -> (r: Option<Vec<u8>>)
        requires
            old(store).wf(),
        ensures
            final(store).wf(),
            final(self)@ == serve_step(old(self)@, old(store)@).0,
            final(store)@ == serve_step(old(self)@, old(store)@).1,
            r is Some <==> serve_step(old(self)@, old(store)@).2 is Some,
            r matches Some(b) ==> b@ == encode_model(serve_step(old(self)@, old(store)@).2->0),
    {
        match self.input.next_frame() {
            Decoded::Frame(request, _) => {
                let response = respond(store, &request);
                Some(encode(&response))
            },
            Decoded::Invalid => {
                let response = Frame::Error("ERR invalid frame".to_owned());
                Some(encode(&response))
            },
            Decoded::Incomplete => None,
        }
    }
}

/// A request that is not a command gets an error frame and changes nothing;
/// the request after it on the same connection is then answered as usual.
pub proof fn lemma_bad_request_keeps_connection(
    m: Map<Seq<char>, Seq<u8>>,
    bad: FrameModel,
    good: FrameModel,
)
    requires
        well_sized(bad),
        well_sized(good),
        command_of(bad) is Err,
    ensures
        serve_step(encode_model(bad) + encode_model(good), m) == (
            encode_model(good),
            m,
            Some(FrameModel::Error(error_text(command_of(bad)->Err_0))),
        ),
        serve_step(encode_model(good), m) == (
            Seq::<u8>::empty(),
            response_to(m, good).0,
            Some(response_to(m, good).1),
        ),
{
    let s = encode_model(bad) + encode_model(good);
    lemma_parse_encode(bad, encode_model(good));
    assert(s.subrange(encode_model(bad).len() as int, s.len() as int) =~= encode_model(good));
    lemma_parse_encode(good, Seq::empty());
    assert(encode_model(good) + Seq::<u8>::empty() =~= encode_model(good));
    assert(encode_model(good).subrange(encode_model(good).len() as int, encode_model(good).len() as int)
        =~= Seq::<u8>::empty());
}

/// A GET of a key the store does not hold is answered with a null frame and
/// changes nothing.
pub proof fn lemma_get_missing_is_null(m: Map<Seq<char>, Seq<u8>>, request: FrameModel, key: Seq<char>)
    requires
        command_of(request) == Ok::<CommandModel, CommandError>(CommandModel::Get { key }),
        !m.contains_key(key),
    ensures
        response_to(m, request) == (m, FrameModel::Null),
{
}

} // verus!
