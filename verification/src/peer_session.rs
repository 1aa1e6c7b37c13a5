//! The decisions of a peer session: block arithmetic for the pipelined
//! download, the per-message state transitions, and piece validation.
//! The connection itself, with its reads, writes and timeouts, belongs
//! to the caller, which feeds frames in and carries planned requests
//! out.

use vstd::prelude::*;
use crate::bitfield::{Bitfield, bit_at};
use crate::bt_peer::BtPeerError;
use crate::byte_util::push_bytes;
use crate::cfg::Cfg;
use crate::message::{Message, MessageError, MessageId, u32_from_be};
use crate::message_handler::{MessageHandlerError, handle_bitfield, handle_have, handle_piece};
use crate::request::Request;
use crate::session_status::SessionStatus;
use crate::status::AtomicTorrentStatusError;
use crate::torrent::{Torrent, sha1_digest, sha1_of};

verus! {

/// Bytes in a full transfer block.
pub const BLOCK_SIZE: u32 = 16384;

#[derive(Debug)]
pub enum PeerSessionError {
    ErrorReadingMessage,
    MessageDoesNotExist(MessageError),
    CouldNotConnectToPeer,
    ErrorDisconnectingFromPeer(AtomicTorrentStatusError),
    ErrorAbortingPiece(AtomicTorrentStatusError),
    ErrorSelectingPiece(AtomicTorrentStatusError),
    ErrorNotifyingPieceDownloaded(AtomicTorrentStatusError),
    ErrorConnectingToPeer(AtomicTorrentStatusError),
    PieceHashDoesNotMatch,
    NoPiecesLeftToDownloadInThisPeer,
    ErrorGettingBitfield(AtomicTorrentStatusError),
    ErrorGettingPiece(AtomicTorrentStatusError),
    ErrorGettingSessionsStatus(AtomicTorrentStatusError),
    PeerNotInterested,
    MessageHandlerError(MessageHandlerError),
    MessageError(MessageId),
    MessageLengthTooLong,
    ErrorSettingStreamTimeout,
    BtPeerError(BtPeerError),
    PeerIsOurself,
}

/// How an incoming frame's length field is read: a length over ten
/// blocks is rejected to bound buffer allocation, zero is a keep-alive,
/// and anything else announces a payload of that many bytes.
pub enum FrameLength {
    TooLong,
    KeepAlive,
    Payload(u32),
}

/// Classifies a frame's length field.
pub fn classify_frame_length(len: u32) -> (r: FrameLength)
    ensures
        r is TooLong <==> len > 10 * BLOCK_SIZE,
        r is KeepAlive <==> len == 0,
        r matches FrameLength::Payload(n) ==> n == len && 0 < len <= 10 * BLOCK_SIZE,
{
    if len > 10 * BLOCK_SIZE {
        FrameLength::TooLong
    } else if len == 0 {
        FrameLength::KeepAlive
    } else {
        FrameLength::Payload(len)
    }
}

/// What a message read while waiting for the remote's interest decides:
/// `not_interested` ends the session, `interested` starts the upload,
/// and anything else keeps waiting.
pub enum InterestWait {
    EndSession,
    StartUpload,
    KeepWaiting,
}

/// Decides one step of the wait for the remote's interest.
pub fn interest_wait_step(id: &MessageId) -> (r: InterestWait)
    ensures
        r is EndSession <==> id is NotInterested,
        r is StartUpload <==> id is Interested,
        r is KeepWaiting <==> !(id is NotInterested) && !(id is Interested),
{
    match id {
        MessageId::NotInterested => InterestWait::EndSession,
        MessageId::Interested => InterestWait::StartUpload,
        _ => InterestWait::KeepWaiting,
    }
}

/// The piece index a `have` message names.
pub open spec fn spec_have_index(message: &Message) -> int {
    u32_from_be(
        message.payload@[0],
        message.payload@[1],
        message.payload@[2],
        message.payload@[3],
    ) as int
}

/// A `have` message whose index names a bit of a bitfield of the given
/// byte length.
pub open spec fn spec_valid_have(message: &Message, bf_len: int) -> bool {
    message.id is Have && message.payload@.len() >= 4 && spec_have_index(message) / 8 < bf_len
}

/// The connection-independent state of one peer session.
#[derive(Debug)]
pub struct PeerSession {
    pub torrent: Torrent,
    pub bitfield: Bitfield,
    pub status: SessionStatus,
    pub piece: Vec<u8>,
    pub current_piece: u32,
    pub config: Cfg,
    pub client_peer_id: String,
}

impl PeerSession {
    /// A fresh session: choked, not interested, an empty remote
    /// bitfield guess sized for the torrent, and our bitfield recorded.
    pub fn new(torrent: Torrent, our_bitfield: Bitfield, config: Cfg, client_peer_id: String) -> (r:
        PeerSession)
        requires
            0 < torrent.info.piece_length <= u32::MAX,
            0 <= torrent.info.length <= u32::MAX,
        ensures
            r.status.choked,
            !r.status.interested,
            r.status.peer_choked,
            !r.status.peer_interested,
            r.status.bitfield@ == our_bitfield@,
            r.piece@.len() == 0,
            r.current_piece == 0,
            r.torrent == torrent,
    {
        let pieces_count = torrent.total_pieces();
        let zeroes: Vec<u8> = vec![0u8; (pieces_count / 8) as usize];
        PeerSession {
            torrent,
            bitfield: Bitfield::new(zeroes),
            status: SessionStatus::new(our_bitfield),
            piece: Vec::new(),
            current_piece: 0,
            config,
            client_peer_id,
        }
    }

    /// How many full blocks the given piece holds: the piece length in
    /// blocks, except that a shorter trailing piece holds only its own
    /// full blocks.
    pub fn complete_blocks_in_torrent_piece(&self, piece_index: u32) -> (r: u32)
        requires
            0 < self.torrent.info.piece_length <= u32::MAX,
            0 <= self.torrent.info.length <= u32::MAX,
            (self.torrent.info.length + self.torrent.info.piece_length - 1) as int
                / self.torrent.info.piece_length as int >= 1,
        ensures
            r == if piece_index as int + 1 != (self.torrent.info.length
                + self.torrent.info.piece_length - 1) as int / self.torrent.info.piece_length as int {
                self.torrent.info.piece_length as int / BLOCK_SIZE as int
            } else {
                if self.torrent.info.length as int % self.torrent.info.piece_length as int == 0 {
                    self.torrent.info.piece_length as int / BLOCK_SIZE as int
                } else {
                    (self.torrent.info.length as int % self.torrent.info.piece_length as int)
                        / BLOCK_SIZE as int
                }
            },
    {
        let last_piece_index = self.torrent.total_pieces() - 1;
        if piece_index != last_piece_index {
            self.torrent.piece_length() / BLOCK_SIZE
        } else {
            let last_piece_size = self.torrent.last_piece_size();
            if last_piece_size == 0 {
                self.torrent.piece_length() / BLOCK_SIZE
            } else {
                last_piece_size / BLOCK_SIZE
            }
        }
    }

    /// The size of the next request window: the configured pipelining
    /// size when it divides the remaining blocks, else all that remain.
    pub fn pipeline_window(remaining_blocks: u32, pipelining_size: u32) -> (r: u32)
        requires
            pipelining_size > 0,
        ensures
            r == if remaining_blocks as int % pipelining_size as int == 0 {
                pipelining_size as int
            } else {
                remaining_blocks as int
            },
    {
        if remaining_blocks % pipelining_size == 0 {
            pipelining_size
        } else {
            remaining_blocks
        }
    }

    /// The block requests of one pipeline window: `window` back-to-back
    /// full blocks starting after the blocks already downloaded.
    pub fn plan_block_requests(piece_index: u32, blocks_downloaded: u32, window: u32) -> (r: Vec<
        Request,
    >)
        requires
            (blocks_downloaded + window) * BLOCK_SIZE <= u32::MAX,
        ensures
            r@.len() == window,
            forall|k: int|
                0 <= k < window ==> (#[trigger] r@[k]).index == piece_index && r@[k].begin == (
                blocks_downloaded + k) * BLOCK_SIZE && r@[k].length == BLOCK_SIZE,
    {
        let mut out: Vec<Request> = Vec::new();
        let mut k: u32 = 0;
        while k < window
            invariant
                k <= window,
                out@.len() == k,
                (blocks_downloaded + window) * BLOCK_SIZE <= u32::MAX,
                forall|m: int|
                    0 <= m < k ==> (#[trigger] out@[m]).index == piece_index && out@[m].begin == (
                    blocks_downloaded + m) * BLOCK_SIZE && out@[m].length == BLOCK_SIZE,
            decreases window - k,
        {
            proof {
                assert((blocks_downloaded + k) * BLOCK_SIZE <= (blocks_downloaded + window)
                    * BLOCK_SIZE) by (nonlinear_arith)
                    requires
                        k < window,
                        blocks_downloaded >= 0,
                ;
            }
            let begin = (blocks_downloaded + k) * BLOCK_SIZE;
            out.push(Request::new(piece_index, begin, BLOCK_SIZE));
            k = k + 1;
        }
        out
    }

    /// Applies one received frame to the session state: choke and
    /// unchoke flip our choked flag, a bitfield replaces the remote
    /// bitfield, a well-formed `have` sets one remote bit, a `piece`
    /// appends its block to the incoming piece buffer. Anything else
    /// leaves the session unchanged; `request` frames are served by the
    /// connection's owner.
    pub fn handle_message(&mut self, message: Message)
        requires
            !(message.id is Request),
        ensures
            final(self).torrent == old(self).torrent,
            final(self).current_piece == old(self).current_piece,
            final(self).status.interested == old(self).status.interested,
            final(self).status.peer_choked == old(self).status.peer_choked,
            final(self).status.peer_interested == old(self).status.peer_interested,
            final(self).status.bitfield@ == old(self).status.bitfield@,
            final(self).status.choked == (if message.id is Unchoke {
                false
            } else if message.id is Choke {
                true
            } else {
                old(self).status.choked
            }),
            final(self).piece@ == (if message.id is Piece && message.payload@.len() >= 8 {
                old(self).piece@ + message.payload@.skip(8)
            } else {
                old(self).piece@
            }),
            message.id is Bitfield ==> final(self).bitfield@ == message.payload@,
            spec_valid_have(&message, old(self).bitfield@.len() as int) ==> final(self).bitfield@.len() == old(self).bitfield@.len() && (forall|i: int|
                0 <= i < 8 * old(self).bitfield@.len() ==> bit_at(final(self).bitfield@, i) == (i
                    == spec_have_index(&message) || bit_at(old(self).bitfield@, i))),
            !(message.id is Bitfield) && !spec_valid_have(&message, old(self).bitfield@.len() as int)
                ==> final(self).bitfield@ == old(self).bitfield@,
    {
        match message.id {
            MessageId::Unchoke => {
                self.status.choked = false;
            },
            MessageId::Choke => {
                self.status.choked = true;
            },
            MessageId::Bitfield => {
                self.bitfield = handle_bitfield(message);
            },
            MessageId::Piece => {
                if message.payload.len() >= 8 {
                    let block = handle_piece(message);
                    push_bytes(&mut self.piece, block.as_slice());
                }
            },
            MessageId::Have => {
                if message.payload.len() >= 4 {
                    let index = handle_have(message);
                    let byte_idx = (index / 8) as usize;
                    if byte_idx < self.bitfield.bitfield.len() {
                        self.bitfield.set_bit(index, true);
                    }
                }
            },
            _ => {},
        }
    }

    /// Checks a downloaded piece against its 20-byte hash in the
    /// torrent description: accepted exactly when the SHA-1 of the
    /// bytes equals the recorded hash.
    pub fn validate_piece(&self, piece: &[u8], piece_index: u32) -> (r: Result<
        (),
        PeerSessionError,
    >)
        requires
            20 * (piece_index as int + 1) <= self.torrent.info.pieces@.len(),
            20 * (piece_index as int + 1) <= usize::MAX,
        ensures
            r is Ok <==> sha1_of(piece@) == self.torrent.info.pieces@.subrange(
                20 * piece_index as int,
                20 * (piece_index as int + 1),
            ),
            r is Err ==> r == Err::<(), PeerSessionError>(PeerSessionError::PieceHashDoesNotMatch),
    {
        proof {
            assert(20 * (piece_index as int) + 20 == 20 * (piece_index as int + 1));
        }
        let start = 20 * piece_index as usize;
        let end = start + 20;
        let hash = sha1_digest(piece);
        let expected = &self.torrent.info.pieces.as_slice()[start..end];
        if crate::byte_util::eq_bytes(hash.as_slice(), expected) {
            proof {
                assert(self.torrent.info.pieces@.subrange(start as int, end as int)
                    =~= self.torrent.info.pieces@.subrange(
                    20 * piece_index as int,
                    20 * (piece_index as int + 1),
                ));
            }
            Ok(())
        } else {
            proof {
                assert(self.torrent.info.pieces@.subrange(start as int, end as int)
                    =~= self.torrent.info.pieces@.subrange(
                    20 * piece_index as int,
                    20 * (piece_index as int + 1),
                ));
            }
            Err(PeerSessionError::PieceHashDoesNotMatch)
        }
    }
}

} // verus!
