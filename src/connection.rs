//! What a connection does with the bytes it has buffered: take the request at
//! the front, wait for more bytes, or give up on a stream that cannot be read;
//! and how a request is answered.
use crate::buffer::buffer_bytes;
use crate::commands::{command_of, effect, lookup_in, reply, Command, CommandModel};
use crate::protocol::{decode, encoding, parse_frame, Frame, Parsed, RespError, RespType};
use crate::storage::{Db, Store};
use bytes::BytesMut;
use vstd::prelude::*;

verus! {

/// The next thing a connection does with its buffer.
pub enum Step {
    /// A whole frame was taken off the buffer: answer this request, then
    /// look at the buffer again. A refused request carries the message.
    Request(Result<Command, String>),
    /// No whole frame yet: read more bytes.
    ReadMore,
    /// The stream cannot be read as frames: close the connection.
    Close(RespError),
}

/// A request as the model sees it.
pub open spec fn request_model(request: Result<Command, String>) -> Result<CommandModel, Seq<char>> {
    match request {
        Ok(cmd) => Ok(cmd@),
        Err(msg) => Err(msg@),
    }
}

/// The reply to a request: the command's reply, or an error frame with the
/// message that refused it. `found` is what the lookup of a key found, for the
/// one command that makes one.
pub open spec fn answer(request: Result<CommandModel, Seq<char>>, found: Option<Seq<u8>>) -> Frame {
    match request {
        Ok(cmd) => reply(cmd, found),
        Err(msg) => Frame::Error(msg),
    }
}

/// Takes the frame at the front of the buffer, if it is whole, and reads it as
/// a request.
pub fn next_request(buffer: &mut BytesMut) -> (s: Step)
    ensures
        match parse_frame(buffer_bytes(*old(buffer)), 0) {
            Parsed::Ready(frame, n) => {
                &&& buffer_bytes(*final(buffer)) == buffer_bytes(*old(buffer)).skip(n)
                &&& s matches Step::Request(request) && request_model(request) == command_of(frame)
            },
            Parsed::Incomplete => s is ReadMore && *final(buffer) == *old(buffer),
            Parsed::Failed(err) => s matches Step::Close(e) && e == err && *final(buffer)
                == *old(buffer),
        },
{
    match decode(buffer) {
        Ok(Some(frame)) => Step::Request(Command::from_resp(frame)),
        Ok(None) => Step::ReadMore,
        Err(e) => Step::Close(e),
    }
}

/// Answers a request against a store: a command runs, a refused request
/// leaves the store as it was; either way the reply comes back as wire bytes.
pub fn respond(request: Result<Command, String>, store: &mut Store) -> (out: Vec<u8>)
    requires
        old(store).wf(),
    ensures
        final(store).wf(),
        match request_model(request) {
            Ok(cmd) => {
                &&& out@ == encoding(reply(cmd, lookup_in(cmd, old(store)@)))
                &&& final(store)@ == effect(cmd, old(store)@)
            },
            Err(msg) => out@ == encoding(Frame::Error(msg)) && final(store)@ == old(store)@,
        },
{
    match request {
        Ok(cmd) => cmd.execute(store).serialize(),
        Err(msg) => RespType::Error(msg).serialize(),
    }
}

/// Answers a request against the shared store, each command taking effect
/// whole under the store's lock. What a lookup finds depends on the other
/// holders of the store.
pub fn respond_shared(request: Result<Command, String>, db: &Db) -> (out: Vec<u8>)
    ensures
        match request_model(request) {
            Ok(CommandModel::Get(_)) => exists|found: Option<Seq<u8>>|
                out@ == encoding(#[trigger] answer(request_model(request), found)),
            _ => out@ == encoding(answer(request_model(request), None)),
        },
{
    let ghost model = request_model(request);
    match request {
        Ok(cmd) => {
            let r = db.run(cmd);
            proof {
                if model matches Ok(CommandModel::Get(_)) {
                    let found = choose|found: Option<Seq<u8>>| r@ == reply(model->Ok_0, found);
                    assert(r@ == answer(model, found));
                }
            }
            r.serialize()
        },
        Err(msg) => RespType::Error(msg).serialize(),
    }
}

} // verus!
