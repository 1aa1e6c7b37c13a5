//! The fixed 68-byte handshake that opens every peer connection.

use vstd::prelude::*;
use vstd::utf8::encode_utf8;
use crate::byte_util::{bytes_to_string, copy_bytes, eq_bytes, push_bytes};

verus! {

#[derive(Debug)]
pub enum FromHandshakeError {
    InvalidHandshake,
}

/// The 19 bytes of the fixed protocol string.
pub open spec fn protocol_bytes() -> Seq<u8> {
    seq![
        66u8, 105u8, 116u8, 84u8, 111u8, 114u8, 114u8, 101u8, 110u8, 116u8, 32u8, 112u8, 114u8,
        111u8, 116u8, 111u8, 99u8, 111u8, 108u8,
    ]
}

/// The first message of a connection: protocol marker, eight reserved
/// zero bytes, the info hash, and the sender's peer id.
#[derive(Debug)]
pub struct Handshake {
    pub pstrlen: u8,
    pub pstr: String,
    pub reserved: [u8; 8],
    pub info_hash: Vec<u8>,
    pub peer_id: Vec<u8>,
}

impl Handshake {
    /// A handshake for the given identity and peer id.
    pub fn new(info_hash: Vec<u8>, peer_id: Vec<u8>) -> (r: Handshake)
        ensures
            r.pstrlen == 19,
            r.pstr@ == "BitTorrent protocol"@,
            r.reserved@ == Seq::new(8, |i: int| 0u8),
            r.info_hash@ == info_hash@,
            r.peer_id@ == peer_id@,
    {
        let reserved: [u8; 8] = [0, 0, 0, 0, 0, 0, 0, 0];
        proof {
            assert(reserved@ =~= Seq::new(8, |i: int| 0u8));
        }
        Handshake {
            pstrlen: 19,
            pstr: String::from_str("BitTorrent protocol"),
            reserved,
            info_hash,
            peer_id,
        }
    }

    /// The 68-byte wire form: length byte, protocol string bytes,
    /// reserved bytes, info hash, peer id.
    /// A received handshake comes from ourselves exactly when its peer
    /// id is our own.
    pub fn is_ourself(&self, our_id: &[u8]) -> (r: bool)
        ensures
            r == (self.peer_id@ == our_id@),
    {
        eq_bytes(self.peer_id.as_slice(), our_id)
    }

    pub fn as_bytes(&self) -> (r: Vec<u8>)
        ensures
            r@ == seq![self.pstrlen] + encode_utf8(self.pstr@) + self.reserved@ + self.info_hash@
                + self.peer_id@,
    {
        let mut bytes: Vec<u8> = Vec::new();
        bytes.push(self.pstrlen);
        push_bytes(&mut bytes, self.pstr.as_str().as_bytes());
        push_bytes(&mut bytes, self.reserved.as_slice());
        push_bytes(&mut bytes, self.info_hash.as_slice());
        push_bytes(&mut bytes, self.peer_id.as_slice());
        assert(bytes@ =~= seq![self.pstrlen] + encode_utf8(self.pstr@) + self.reserved@
            + self.info_hash@ + self.peer_id@);
        bytes
    }

    /// Parses a 68-byte frame. Accepts exactly the frames of length 68
    /// whose first byte is 19 and whose next 19 bytes spell the protocol
    /// string.
    pub fn from_bytes(bytes: &[u8]) -> (r: Result<Handshake, FromHandshakeError>)
        ensures
            r is Ok <==> (bytes@.len() == 68 && bytes@[0] == 19 && bytes@.subrange(1, 20)
                == protocol_bytes()),
            r matches Ok(h) ==> h.pstrlen == 19 && h.pstr@.len() == 19 && (forall|i: int|
                0 <= i < 19 ==> h.pstr@[i] == protocol_bytes()[i] as char) && h.reserved@
                == bytes@.subrange(20, 28) && h.info_hash@ == bytes@.subrange(28, 48)
                && h.peer_id@ == bytes@.subrange(48, 68),
            r is Err ==> r == Err::<Handshake, FromHandshakeError>(
                FromHandshakeError::InvalidHandshake,
            ),
    {
        if bytes.len() != 68 {
            return Err(FromHandshakeError::InvalidHandshake);
        }
        let pstrlen = bytes[0];
        if pstrlen != 19 {
            return Err(FromHandshakeError::InvalidHandshake);
        }
        let lit_protocol: [u8; 19] = [
            66, 105, 116, 84, 111, 114, 114, 101, 110, 116, 32, 112, 114, 111, 116, 111, 99, 111,
            108,
        ];
        proof {
            assert(lit_protocol@ =~= protocol_bytes());
        }
        let mut i: usize = 0;
        while i < 19
            invariant
                i <= 19,
                bytes@.len() == 68,
                lit_protocol@ == protocol_bytes(),
                forall|j: int| 0 <= j < i ==> bytes@[j + 1] == protocol_bytes()[j],
            decreases 19 - i,
        {
            if bytes[i + 1] != lit_protocol[i] {
                proof {
                    assert(bytes@.subrange(1, 20)[i as int] == bytes@[i + 1]);
                }
                return Err(FromHandshakeError::InvalidHandshake);
            }
            i = i + 1;
        }
        proof {
            assert(bytes@.subrange(1, 20) =~= protocol_bytes());
        }
        let pstr_vec = copy_bytes(&bytes[1..20]);
        let pstr = match bytes_to_string(pstr_vec) {
            Some(s) => s,
            None => {
                proof {
                    crate::byte_util::lemma_ascii_valid_utf8(bytes@.subrange(1, 20));
                }
                return Err(FromHandshakeError::InvalidHandshake);
            },
        };
        let reserved: [u8; 8] = [
            bytes[20],
            bytes[21],
            bytes[22],
            bytes[23],
            bytes[24],
            bytes[25],
            bytes[26],
            bytes[27],
        ];
        proof {
            assert(reserved@ =~= bytes@.subrange(20, 28));
        }
        let info_hash = copy_bytes(&bytes[28..48]);
        let peer_id = copy_bytes(&bytes[48..68]);
        Ok(Handshake { pstrlen, pstr, reserved, info_hash, peer_id })
    }
}

} // verus!
