//! Length-prefixed peer wire messages: a 4-byte big-endian length, a
//! one-byte id, and the payload. A length of zero is a keep-alive.

use vstd::prelude::*;
use crate::byte_util::push_bytes;

verus! {

/// The message ids of the peer wire protocol. `KeepAlive` stands for the
/// zero-length frame, which carries no id byte.
#[derive(PartialEq, Debug, Clone, Copy)]
pub enum MessageId {
    KeepAlive,
    Choke,
    Unchoke,
    Interested,
    NotInterested,
    Have,
    Bitfield,
    Request,
    Piece,
    Cancel,
    Port,
}

/// The id byte a message id is written as. The keep-alive frame has no
/// id byte; writing it anyway emits 255, as a cast of its out-of-band
/// tag would.
pub open spec fn id_byte(id: MessageId) -> u8 {
    match id {
        MessageId::KeepAlive => 255,
        MessageId::Choke => 0,
        MessageId::Unchoke => 1,
        MessageId::Interested => 2,
        MessageId::NotInterested => 3,
        MessageId::Have => 4,
        MessageId::Bitfield => 5,
        MessageId::Request => 6,
        MessageId::Piece => 7,
        MessageId::Cancel => 8,
        MessageId::Port => 9,
    }
}

/// The message id a byte between 0 and 9 denotes.
pub open spec fn id_of_byte(b: u8) -> MessageId {
    if b == 0 {
        MessageId::Choke
    } else if b == 1 {
        MessageId::Unchoke
    } else if b == 2 {
        MessageId::Interested
    } else if b == 3 {
        MessageId::NotInterested
    } else if b == 4 {
        MessageId::Have
    } else if b == 5 {
        MessageId::Bitfield
    } else if b == 6 {
        MessageId::Request
    } else if b == 7 {
        MessageId::Piece
    } else if b == 8 {
        MessageId::Cancel
    } else {
        MessageId::Port
    }
}

/// The four big-endian bytes of a 32-bit length or field.
pub open spec fn u32_be_bytes(n: u32) -> Seq<u8> {
    seq![(n >> 24u32) as u8, (n >> 16u32) as u8, (n >> 8u32) as u8, n as u8]
}

/// The value the four big-endian bytes denote.
pub open spec fn u32_from_be(b0: u8, b1: u8, b2: u8, b3: u8) -> u32 {
    (b0 * 0x1000000 + b1 * 0x10000 + b2 * 0x100 + b3) as u32
}

/// Writes a `u32` in big-endian order.
pub fn push_u32_be(out: &mut Vec<u8>, n: u32)
    ensures
        final(out)@ == old(out)@ + u32_be_bytes(n),
{
    out.push(#[verifier::truncate] ((n >> 24) as u8));
    out.push(#[verifier::truncate] ((n >> 16) as u8));
    out.push(#[verifier::truncate] ((n >> 8) as u8));
    out.push(#[verifier::truncate] (n as u8));
    assert(out@ =~= old(out)@ + u32_be_bytes(n));
}

/// Reads a big-endian `u32`.
pub fn read_u32_be(b0: u8, b1: u8, b2: u8, b3: u8) -> (r: u32)
    ensures
        r == u32_from_be(b0, b1, b2, b3),
{
    b0 as u32 * 0x1000000 + b1 as u32 * 0x10000 + b2 as u32 * 0x100 + b3 as u32
}

/// A peer wire message: its id and its payload.
#[derive(Debug)]
pub struct Message {
    pub id: MessageId,
    pub payload: Vec<u8>,
}

#[derive(Debug)]
pub enum MessageError {
    InvalidMessage,
}

impl Message {
    pub fn new(id: MessageId, payload: Vec<u8>) -> (r: Message)
        ensures
            r.id == id,
            r.payload@ == payload@,
    {
        Message { id, payload }
    }

    /// Parses the body of a frame (the bytes after the length prefix):
    /// an id byte between 0 and 9 followed by the payload.
    pub fn from_bytes(payload: &[u8]) -> (r: Result<Message, MessageError>)
        ensures
            r is Ok <==> (payload@.len() >= 1 && payload@[0] <= 9),
            r matches Ok(m) ==> m.id == id_of_byte(payload@[0]) && m.payload@ == payload@.skip(1),
            r is Err ==> r == Err::<Message, MessageError>(MessageError::InvalidMessage),
    {
        if payload.len() == 0 {
            return Err(MessageError::InvalidMessage);
        }
        let id = match payload[0] {
            0 => MessageId::Choke,
            1 => MessageId::Unchoke,
            2 => MessageId::Interested,
            3 => MessageId::NotInterested,
            4 => MessageId::Have,
            5 => MessageId::Bitfield,
            6 => MessageId::Request,
            7 => MessageId::Piece,
            8 => MessageId::Cancel,
            9 => MessageId::Port,
            _ => {
                return Err(MessageError::InvalidMessage);
            },
        };
        let mut msg_payload: Vec<u8> = Vec::new();
        let mut i: usize = 1;
        while i < payload.len()
            invariant
                1 <= i <= payload@.len(),
                msg_payload@ == payload@.subrange(1, i as int),
            decreases payload@.len() - i,
        {
            msg_payload.push(payload[i]);
            i = i + 1;
            assert(msg_payload@ =~= payload@.subrange(1, i as int));
        }
        assert(msg_payload@ =~= payload@.skip(1));
        Ok(Message { id, payload: msg_payload })
    }

    /// The framed wire form: big-endian length (payload plus the id
    /// byte), the id byte, and the payload.
    pub fn as_bytes(&self) -> (r: Vec<u8>)
        requires
            self.payload@.len() + 1 <= u32::MAX,
        ensures
            r@ == u32_be_bytes((self.payload@.len() + 1) as u32) + seq![id_byte(self.id)]
                + self.payload@,
    {
        let len: u32 = self.payload.len() as u32 + 1;
        let mut bytes: Vec<u8> = Vec::new();
        push_u32_be(&mut bytes, len);
        let idb: u8 = match self.id {
            MessageId::KeepAlive => 255,
            MessageId::Choke => 0,
            MessageId::Unchoke => 1,
            MessageId::Interested => 2,
            MessageId::NotInterested => 3,
            MessageId::Have => 4,
            MessageId::Bitfield => 5,
            MessageId::Request => 6,
            MessageId::Piece => 7,
            MessageId::Cancel => 8,
            MessageId::Port => 9,
        };
        bytes.push(idb);
        push_bytes(&mut bytes, self.payload.as_slice());
        assert(bytes@ =~= u32_be_bytes((self.payload@.len() + 1) as u32) + seq![id_byte(self.id)]
            + self.payload@);
        bytes
    }
}

} // verus!
