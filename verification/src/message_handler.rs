//! Building and reading the payloads of peer wire messages. Sending and
//! receiving them over a connection is the caller's business; the byte
//! layouts are fixed here.

use vstd::prelude::*;
use crate::bitfield::Bitfield;
use crate::byte_util::{copy_bytes, push_bytes};
use crate::message::{Message, MessageId, push_u32_be, read_u32_be, u32_be_bytes, u32_from_be};
use crate::request::Request;
use crate::status::AtomicTorrentStatusError;

verus! {

#[derive(Debug)]
pub enum MessageHandlerError {
    ErrorGettingBitfield(AtomicTorrentStatusError),
    ErrorGettingPiece(AtomicTorrentStatusError),
    HandshakeError,
    MessageError(MessageId),
}

/// The remote's bitfield message, taken as its raw bits.
pub fn handle_bitfield(message: Message) -> (r: Bitfield)
    ensures
        r@ == message.payload@,
{
    Bitfield::new(message.payload)
}

/// The block carried by a `piece` message: everything after the index
/// and begin fields.
pub fn handle_piece(message: Message) -> (r: Vec<u8>)
    requires
        message.payload@.len() >= 8,
    ensures
        r@ == message.payload@.skip(8),
{
    let mut block: Vec<u8> = Vec::new();
    let mut i: usize = 8;
    while i < message.payload.len()
        invariant
            8 <= i <= message.payload@.len(),
            block@ == message.payload@.subrange(8, i as int),
        decreases message.payload@.len() - i,
    {
        block.push(message.payload[i]);
        i = i + 1;
        assert(block@ =~= message.payload@.subrange(8, i as int));
    }
    assert(block@ =~= message.payload@.skip(8));
    block
}

/// The piece index carried by a `have` message.
pub fn handle_have(message: Message) -> (r: u32)
    requires
        message.payload@.len() >= 4,
    ensures
        r == u32_from_be(
            message.payload@[0],
            message.payload@[1],
            message.payload@[2],
            message.payload@[3],
        ),
{
    read_u32_be(message.payload[0], message.payload[1], message.payload[2], message.payload[3])
}

/// A `piece` message: index, begin, and the block bytes.
pub fn build_piece_message(index: u32, begin: u32, block: &[u8]) -> (r: Message)
    ensures
        r.id is Piece,
        r.payload@ == u32_be_bytes(index) + u32_be_bytes(begin) + block@,
{
    let mut payload: Vec<u8> = Vec::new();
    push_u32_be(&mut payload, index);
    push_u32_be(&mut payload, begin);
    push_bytes(&mut payload, block);
    Message::new(MessageId::Piece, payload)
}

/// A `request` message for one block.
pub fn build_request_message(index: u32, begin: u32, length: u32) -> (r: Message)
    ensures
        r.id is Request,
        r.payload@ == u32_be_bytes(index) + u32_be_bytes(begin) + u32_be_bytes(length),
{
    let payload = Request::new(index, begin, length).as_bytes();
    Message::new(MessageId::Request, payload)
}

/// A `cancel` message undoing a request.
pub fn build_cancel_message(index: u32, begin: u32, length: u32) -> (r: Message)
    ensures
        r.id is Cancel,
        r.payload@ == u32_be_bytes(index) + u32_be_bytes(begin) + u32_be_bytes(length),
{
    let mut payload: Vec<u8> = Vec::new();
    push_u32_be(&mut payload, index);
    push_u32_be(&mut payload, begin);
    push_u32_be(&mut payload, length);
    Message::new(MessageId::Cancel, payload)
}

/// A `have` message for one piece.
pub fn build_have_message(index: u32) -> (r: Message)
    ensures
        r.id is Have,
        r.payload@ == u32_be_bytes(index),
{
    let mut payload: Vec<u8> = Vec::new();
    push_u32_be(&mut payload, index);
    Message::new(MessageId::Have, payload)
}

/// A `bitfield` message carrying the given bits.
pub fn build_bitfield_message(bitfield: &Bitfield) -> (r: Message)
    ensures
        r.id is Bitfield,
        r.payload@ == bitfield@,
{
    Message::new(MessageId::Bitfield, bitfield.get_vec())
}

/// An `unchoke` message.
pub fn build_unchoke_message() -> (r: Message)
    ensures
        r.id is Unchoke,
        r.payload@.len() == 0,
{
    Message::new(MessageId::Unchoke, Vec::new())
}

/// An `interested` message.
pub fn build_interested_message() -> (r: Message)
    ensures
        r.id is Interested,
        r.payload@.len() == 0,
{
    Message::new(MessageId::Interested, Vec::new())
}

} // verus!
