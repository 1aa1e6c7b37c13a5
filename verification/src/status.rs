//! The per-torrent piece ledger: the authoritative piece-state table,
//! connected-peer counters, and piece selection, including the endgame
//! policy.
//!
//! The ledger is the single-writer form of the shared status: callers
//! serialise access to it, and every transition keeps the invariant
//! `free + downloading + finished = total pieces`.

use vstd::prelude::*;
use crate::bitfield::{Bitfield, bit_at};
use crate::bt_peer::BtPeer;
use crate::cfg::Cfg;
use crate::session_status::SessionStatus;
use crate::torrent::Torrent;

verus! {

/// State of one piece of the torrent.
#[derive(Debug, PartialEq, Eq, Clone)]
pub enum PieceStatus {
    Finished,
    Downloading,
    Free,
}

/// Failures of ledger operations.
#[derive(Debug)]
pub enum AtomicTorrentStatusError {
    InvalidPieceIndex,
    NoPeersConnected,
    PieceWasNotDownloading,
    SavePieceError,
    RetrievingPieceError,
    PieceWasNotFinished,
}

/// How many entries of the table hold the given state.
pub open spec fn count_of(s: Seq<PieceStatus>, st: PieceStatus) -> int
    decreases s.len(),
{
    if s.len() == 0 {
        0
    } else {
        count_of(s.drop_last(), st) + if s.last() == st {
            1int
        } else {
            0int
        }
    }
}

pub proof fn lemma_count_bounds(s: Seq<PieceStatus>, st: PieceStatus)
    ensures
        0 <= count_of(s, st) <= s.len(),
    decreases s.len(),
{
    if s.len() > 0 {
        lemma_count_bounds(s.drop_last(), st);
    }
}

/// Every piece is free, downloading or finished, so the three counts
/// partition the table.
pub proof fn lemma_counts_partition(s: Seq<PieceStatus>)
    ensures
        count_of(s, PieceStatus::Free) + count_of(s, PieceStatus::Downloading) + count_of(
            s,
            PieceStatus::Finished,
        ) == s.len(),
    decreases s.len(),
{
    if s.len() > 0 {
        lemma_counts_partition(s.drop_last());
    }
}

/// Updating one slot moves one unit of count between states.
pub proof fn lemma_count_update(s: Seq<PieceStatus>, i: int, v: PieceStatus, st: PieceStatus)
    requires
        0 <= i < s.len(),
    ensures
        count_of(s.update(i, v), st) == count_of(s, st) + (if v == st {
            1int
        } else {
            0int
        }) - (if s[i] == st {
            1int
        } else {
            0int
        }),
    decreases s.len(),
{
    let t = s.update(i, v);
    if i == s.len() - 1 {
        assert(t.drop_last() =~= s.drop_last());
    } else {
        assert(t.drop_last() =~= s.drop_last().update(i, v));
        lemma_count_update(s.drop_last(), i, v, st);
    }
}

/// If a state has a positive count, some slot holds it.
pub proof fn lemma_count_nonzero_exists(s: Seq<PieceStatus>, st: PieceStatus)
    requires
        count_of(s, st) > 0,
    ensures
        exists|i: int| 0 <= i < s.len() && s[i] == st,
    decreases s.len(),
{
    if s.last() == st {
        assert(s[s.len() - 1] == st);
    } else {
        lemma_count_nonzero_exists(s.drop_last(), st);
        let i = choose|i: int| 0 <= i < s.drop_last().len() && s.drop_last()[i] == st;
        assert(s[i] == st);
    }
}

/// The same peer as the table records it: the identity pair and the
/// reported id agree.
pub open spec fn bt_peer_matches(a: &BtPeer, b: &BtPeer) -> bool {
    a.ip@ == b.ip@ && a.port == b.port && ((a.peer_id is Some) == (b.peer_id is Some)) && (
    a.peer_id matches Some(x) ==> (b.peer_id matches Some(y) && x@ == y@))
}

/// A session as it starts: both sides choked, neither interested, no
/// remote bits known.
pub open spec fn session_is_fresh(s: &SessionStatus) -> bool {
    s.choked && !s.interested && s.peer_choked && !s.peer_interested && s.bitfield@.len() == 0
}

/// The same session state, field for field.
pub open spec fn session_matches(a: &SessionStatus, b: &SessionStatus) -> bool {
    a.choked == b.choked && a.interested == b.interested && a.peer_choked == b.peer_choked
        && a.peer_interested == b.peer_interested && a.bitfield@ == b.bitfield@
}

/// The session table without every entry of the peer at (ip, port).
pub open spec fn spec_sessions_without(
    s: Seq<(BtPeer, SessionStatus)>,
    ip: Seq<char>,
    port: i64,
) -> Seq<(BtPeer, SessionStatus)>
    decreases s.len(),
{
    if s.len() == 0 {
        Seq::empty()
    } else if s[0].0.ip@ == ip && s[0].0.port == port {
        spec_sessions_without(s.drop_first(), ip, port)
    } else {
        seq![s[0]] + spec_sessions_without(s.drop_first(), ip, port)
    }
}

/// The per-torrent ledger. All counters are derived views of the piece
/// table and the peer table; `wf` ties them together.
#[derive(Debug)]
pub struct AtomicTorrentStatus {
    pub torrent: Torrent,
    pub pieces_status: Vec<PieceStatus>,
    pub current_peers: usize,
    pub config: Cfg,
    pub sessions_status: Vec<(BtPeer, SessionStatus)>,
    pub finished_pieces: usize,
    pub downloading_pieces: usize,
    pub free_pieces: usize,
    pub total_seeders_count: usize,
    pub total_leechers_count: usize,
    pub all_current_peers: usize,
}

impl AtomicTorrentStatus {
    /// The piece table.
    pub open spec fn spec_pieces(&self) -> Seq<PieceStatus> {
        self.pieces_status@
    }

    pub open spec fn spec_finished(&self) -> int {
        self.finished_pieces as int
    }

    pub open spec fn spec_downloading(&self) -> int {
        self.downloading_pieces as int
    }

    pub open spec fn spec_free(&self) -> int {
        self.free_pieces as int
    }

    pub open spec fn spec_current_peers(&self) -> int {
        self.current_peers as int
    }

    pub open spec fn spec_all_current_peers(&self) -> int {
        self.all_current_peers as int
    }

    pub open spec fn spec_sessions(&self) -> Seq<(BtPeer, SessionStatus)> {
        self.sessions_status@
    }

    /// The fields no ledger operation changes.
    pub open spec fn same_torrent_and_config(&self, other: &AtomicTorrentStatus) -> bool {
        self.torrent == other.torrent && self.config == other.config
    }

    /// The ledger invariant: the counters are exactly the counts of the
    /// piece table, and the three states partition it.
    pub open spec fn wf(&self) -> bool {
        &&& self.finished_pieces == count_of(self.spec_pieces(), PieceStatus::Finished)
        &&& self.downloading_pieces == count_of(self.spec_pieces(), PieceStatus::Downloading)
        &&& self.free_pieces == count_of(self.spec_pieces(), PieceStatus::Free)
        &&& self.spec_pieces().len() <= u32::MAX
        &&& self.spec_pieces().len() + 7 <= usize::MAX
    }

    /// A fresh ledger: every piece free, no peers.
    pub fn new(torrent: &Torrent, config: Cfg) -> (r: AtomicTorrentStatus)
        requires
            0 < torrent.info.piece_length <= u32::MAX,
            0 <= torrent.info.length <= u32::MAX,
            torrent.info.length + 7 <= usize::MAX,
        ensures
            r.wf(),
            r.torrent.info.length == torrent.info.length,
            r.torrent.info.piece_length == torrent.info.piece_length,
            r.torrent.info.name@ == torrent.info.name@,
            r.torrent.info.pieces@ == torrent.info.pieces@,
            r.spec_pieces().len() == (torrent.info.length + torrent.info.piece_length - 1) as int
                / torrent.info.piece_length as int,
            forall|i: int| 0 <= i < r.spec_pieces().len() ==> r.spec_pieces()[i] is Free,
            r.spec_finished() == 0,
            r.spec_downloading() == 0,
            r.spec_free() == r.spec_pieces().len(),
            r.spec_current_peers() == 0,
            r.spec_all_current_peers() == 0,
            r.spec_sessions().len() == 0,
    {
        let total = torrent.total_pieces() as usize;
        proof {
            if torrent.info.length >= 1 {
                assert((torrent.info.length + torrent.info.piece_length - 1) / (
                torrent.info.piece_length as int) <= torrent.info.length) by (nonlinear_arith)
                    requires
                        torrent.info.piece_length >= 1,
                        torrent.info.length >= 1,
                ;
            } else {
                assert((torrent.info.length + torrent.info.piece_length - 1) / (
                torrent.info.piece_length as int) == 0) by (nonlinear_arith)
                    requires
                        torrent.info.piece_length >= 1,
                        torrent.info.length == 0,
                ;
            }
        }
        let mut pieces_status: Vec<PieceStatus> = Vec::new();
        let mut i: usize = 0;
        while i < total
            invariant
                i <= total,
                pieces_status@.len() == i,
                forall|j: int| 0 <= j < i ==> pieces_status@[j] is Free,
            decreases total - i,
        {
            pieces_status.push(PieceStatus::Free);
            i = i + 1;
        }
        proof {
            lemma_count_all_free(pieces_status@);
        }
        AtomicTorrentStatus {
            torrent: torrent.clone(),
            pieces_status,
            current_peers: 0,
            config,
            sessions_status: Vec::new(),
            finished_pieces: 0,
            downloading_pieces: 0,
            free_pieces: total,
            total_seeders_count: 0,
            total_leechers_count: 0,
            all_current_peers: 0,
        }
    }

    /// True exactly when every piece is finished.
    pub fn is_finished(&self) -> (r: bool)
        requires
            self.wf(),
            0 < self.torrent.info.piece_length <= u32::MAX,
            0 <= self.torrent.info.length <= u32::MAX,
            self.spec_pieces().len() == (self.torrent.info.length + self.torrent.info.piece_length
                - 1) as int / self.torrent.info.piece_length as int,
        ensures
            r == (self.spec_finished() == self.spec_pieces().len()),
    {
        self.finished_pieces == self.torrent.total_pieces() as usize
    }

    /// The number of pieces still to download.
    pub fn remaining_pieces(&self) -> (r: usize)
        requires
            self.wf(),
            0 < self.torrent.info.piece_length <= u32::MAX,
            0 <= self.torrent.info.length <= u32::MAX,
            self.spec_pieces().len() == (self.torrent.info.length + self.torrent.info.piece_length
                - 1) as int / self.torrent.info.piece_length as int,
        ensures
            r == self.spec_pieces().len() - self.spec_finished(),
    {
        proof {
            lemma_count_bounds(self.spec_pieces(), PieceStatus::Finished);
        }
        self.torrent.total_pieces() as usize - self.finished_pieces
    }

    /// The number of pieces currently downloading.
    pub fn downloading_pieces(&self) -> (r: usize)
        ensures
            r == self.spec_downloading(),
    {
        self.downloading_pieces
    }

    /// The number of pieces already downloaded.
    pub fn downloaded_pieces(&self) -> (r: usize)
        ensures
            r == self.spec_finished(),
    {
        self.finished_pieces
    }

    /// Registers a connected peer: the connected counter grows by one
    /// and the table gains a fresh session entry for this peer.
    pub fn peer_connected(&mut self, peer: &BtPeer) -> (r: Result<(), AtomicTorrentStatusError>)
        requires
            old(self).spec_current_peers() < usize::MAX,
        ensures
            r is Ok,
            final(self).spec_current_peers() == old(self).spec_current_peers() + 1,
            final(self).spec_sessions().len() == old(self).spec_sessions().len() + 1,
            forall|j: int|
                0 <= j < old(self).spec_sessions().len() ==> #[trigger] final(self).spec_sessions()[j] == old(self).spec_sessions()[j],
            bt_peer_matches(&final(self).spec_sessions().last().0, peer),
            session_is_fresh(&final(self).spec_sessions().last().1),
            final(self).wf() == old(self).wf(),
            final(self).same_torrent_and_config(old(self)),
            final(self).spec_pieces() == old(self).spec_pieces(),
            final(self).spec_finished() == old(self).spec_finished(),
            final(self).spec_downloading() == old(self).spec_downloading(),
            final(self).spec_free() == old(self).spec_free(),
            final(self).spec_all_current_peers() == old(self).spec_all_current_peers(),
            final(self).total_seeders_count == old(self).total_seeders_count,
            final(self).total_leechers_count == old(self).total_leechers_count,
    {
        self.current_peers = self.current_peers + 1;
        let bf = Bitfield::new(Vec::new());
        self.sessions_status.push((peer.clone(), SessionStatus::new(bf)));
        Ok(())
    }

    /// Notes one more connection attempt in flight.
    pub fn peer_connecting(&mut self)
        requires
            old(self).spec_all_current_peers() < usize::MAX,
        ensures
            final(self).spec_all_current_peers() == old(self).spec_all_current_peers() + 1,
            final(self).wf() == old(self).wf(),
            final(self).same_torrent_and_config(old(self)),
            final(self).spec_pieces() == old(self).spec_pieces(),
            final(self).spec_finished() == old(self).spec_finished(),
            final(self).spec_downloading() == old(self).spec_downloading(),
            final(self).spec_free() == old(self).spec_free(),
            final(self).spec_current_peers() == old(self).spec_current_peers(),
            final(self).spec_sessions() == old(self).spec_sessions(),
            final(self).total_seeders_count == old(self).total_seeders_count,
            final(self).total_leechers_count == old(self).total_leechers_count,
    {
        self.all_current_peers = self.all_current_peers + 1;
    }

    /// Removes a connected peer; fails exactly when no peer is connected.
    pub fn peer_disconnected(&mut self, peer: &BtPeer) -> (r: Result<
        (),
        AtomicTorrentStatusError,
    >)
        requires
            old(self).spec_current_peers() > 0 ==> old(self).spec_all_current_peers() > 0,
        ensures
            r is Ok <==> old(self).spec_current_peers() > 0,
            r is Ok ==> final(self).spec_current_peers() == old(self).spec_current_peers() - 1
                && final(self).spec_all_current_peers() == old(self).spec_all_current_peers() - 1
                && final(self).spec_sessions() == spec_sessions_without(
                old(self).spec_sessions(),
                peer.ip@,
                peer.port,
            ),
            r is Err ==> *final(self) == *old(self),
            final(self).wf() == old(self).wf(),
            final(self).same_torrent_and_config(old(self)),
            final(self).spec_pieces() == old(self).spec_pieces(),
            final(self).spec_finished() == old(self).spec_finished(),
            final(self).spec_downloading() == old(self).spec_downloading(),
            final(self).spec_free() == old(self).spec_free(),
            final(self).total_seeders_count == old(self).total_seeders_count,
            final(self).total_leechers_count == old(self).total_leechers_count,
    {
        if self.current_peers == 0 {
            return Err(AtomicTorrentStatusError::NoPeersConnected);
        }
        self.current_peers = self.current_peers - 1;
        self.all_current_peers = self.all_current_peers - 1;
        self.remove_session(peer);
        Ok(())
    }

    /// Notes that a connection attempt failed.
    pub fn peer_connecting_failed(&mut self)
        requires
            old(self).spec_all_current_peers() > 0,
        ensures
            final(self).spec_all_current_peers() == old(self).spec_all_current_peers() - 1,
            final(self).wf() == old(self).wf(),
            final(self).same_torrent_and_config(old(self)),
            final(self).spec_pieces() == old(self).spec_pieces(),
            final(self).spec_finished() == old(self).spec_finished(),
            final(self).spec_downloading() == old(self).spec_downloading(),
            final(self).spec_free() == old(self).spec_free(),
            final(self).spec_current_peers() == old(self).spec_current_peers(),
            final(self).spec_sessions() == old(self).spec_sessions(),
            final(self).total_seeders_count == old(self).total_seeders_count,
            final(self).total_leechers_count == old(self).total_leechers_count,
    {
        self.all_current_peers = self.all_current_peers - 1;
    }

    /// The number of connected peers.
    pub fn current_peers(&self) -> (r: usize)
        ensures
            r == self.spec_current_peers(),
    {
        self.current_peers
    }

    /// The number of connected and connecting peers together.
    pub fn all_current_peers(&self) -> (r: usize)
        ensures
            r == self.spec_all_current_peers(),
    {
        self.all_current_peers
    }

    /// Drops every session entry recorded for this peer, keeping the
    /// other entries in order and untouched.
    fn remove_session(&mut self, peer: &BtPeer)
        ensures
            final(self).spec_sessions() == spec_sessions_without(
                old(self).spec_sessions(),
                peer.ip@,
                peer.port,
            ),
            final(self).wf() == old(self).wf(),
            final(self).same_torrent_and_config(old(self)),
            final(self).spec_pieces() == old(self).spec_pieces(),
            final(self).spec_current_peers() == old(self).spec_current_peers(),
            final(self).spec_all_current_peers() == old(self).spec_all_current_peers(),
            final(self).spec_finished() == old(self).spec_finished(),
            final(self).spec_downloading() == old(self).spec_downloading(),
            final(self).spec_free() == old(self).spec_free(),
            final(self).total_seeders_count == old(self).total_seeders_count,
            final(self).total_leechers_count == old(self).total_leechers_count,
    {
        let mut taken: Vec<(BtPeer, SessionStatus)> = Vec::new();
        taken.append(&mut self.sessions_status);
        let ghost orig = taken@;
        let mut kept: Vec<(BtPeer, SessionStatus)> = Vec::new();
        while taken.len() > 0
            invariant
                spec_sessions_without(orig, peer.ip@, peer.port) == kept@ + spec_sessions_without(
                    taken@,
                    peer.ip@,
                    peer.port,
                ),
            decreases taken@.len(),
        {
            let ghost pre = taken@;
            let ghost prevk = kept@;
            let entry = taken.remove(0);
            proof {
                assert(taken@ =~= pre.drop_first());
                assert(entry == pre[0]);
            }
            let keep = entry.0.ip != peer.ip || entry.0.port != peer.port;
            if keep {
                kept.push(entry);
                proof {
                    assert(prevk + (seq![pre[0]] + spec_sessions_without(
                        taken@,
                        peer.ip@,
                        peer.port,
                    )) =~= kept@ + spec_sessions_without(taken@, peer.ip@, peer.port));
                }
            }
        }
        proof {
            assert(spec_sessions_without(taken@, peer.ip@, peer.port) =~= Seq::empty());
            assert(kept@ + Seq::<(BtPeer, SessionStatus)>::empty() =~= kept@);
        }
        self.sessions_status = kept;
    }

    /// Whether a session entry for this (ip, port) is present.
    pub fn is_peer_connected(&self, peer: &BtPeer) -> (r: bool)
        ensures
            r == exists|j: int|
                0 <= j < self.spec_sessions().len() && (#[trigger] self.spec_sessions()[j]).0.ip@
                    == peer.ip@ && self.spec_sessions()[j].0.port == peer.port,
    {
        let n = self.sessions_status.len();
        let mut i: usize = 0;
        while i < n
            invariant
                i <= n,
                n == self.spec_sessions().len(),
                forall|j: int|
                    0 <= j < i ==> !((#[trigger] self.spec_sessions()[j]).0.ip@ == peer.ip@
                        && self.spec_sessions()[j].0.port == peer.port),
            decreases n - i,
        {
            let hit = {
                let entry = &self.sessions_status[i];
                entry.0.ip == peer.ip && entry.0.port == peer.port
            };
            if hit {
                return true;
            }
            i = i + 1;
        }
        false
    }

    /// Replaces the stored session state of a peer: its old entries go,
    /// and one entry carrying the given state is appended.
    pub fn update_peer_session_status(&mut self, peer: &BtPeer, status: &SessionStatus) -> (r:
        Result<(), AtomicTorrentStatusError>)
        ensures
            r is Ok,
            final(self).spec_sessions().len() == spec_sessions_without(
                old(self).spec_sessions(),
                peer.ip@,
                peer.port,
            ).len() + 1,
            forall|j: int|
                0 <= j < final(self).spec_sessions().len() - 1 ==> #[trigger] final(self).spec_sessions()[j] == spec_sessions_without(
                    old(self).spec_sessions(),
                    peer.ip@,
                    peer.port,
                )[j],
            bt_peer_matches(&final(self).spec_sessions().last().0, peer),
            session_matches(&final(self).spec_sessions().last().1, status),
            final(self).wf() == old(self).wf(),
            final(self).same_torrent_and_config(old(self)),
            final(self).spec_pieces() == old(self).spec_pieces(),
            final(self).spec_finished() == old(self).spec_finished(),
            final(self).spec_downloading() == old(self).spec_downloading(),
            final(self).spec_free() == old(self).spec_free(),
            final(self).spec_current_peers() == old(self).spec_current_peers(),
            final(self).spec_all_current_peers() == old(self).spec_all_current_peers(),
            final(self).total_seeders_count == old(self).total_seeders_count,
            final(self).total_leechers_count == old(self).total_leechers_count,
    {
        self.remove_session(peer);
        self.sessions_status.push((peer.clone(), status.clone()));
        Ok(())
    }

    /// Stores the tracker-reported swarm tallies.
    pub fn update_total_peers(&mut self, seeders_count: usize, leechers_count: usize)
        ensures
            final(self).total_seeders_count == seeders_count,
            final(self).total_leechers_count == leechers_count,
            final(self).spec_pieces() == old(self).spec_pieces(),
            final(self).wf() == old(self).wf(),
            final(self).same_torrent_and_config(old(self)),
            final(self).spec_finished() == old(self).spec_finished(),
            final(self).spec_downloading() == old(self).spec_downloading(),
            final(self).spec_free() == old(self).spec_free(),
            final(self).spec_current_peers() == old(self).spec_current_peers(),
            final(self).spec_all_current_peers() == old(self).spec_all_current_peers(),
            final(self).spec_sessions() == old(self).spec_sessions(),
    {
        self.total_seeders_count = seeders_count;
        self.total_leechers_count = leechers_count;
    }

    /// The stored (seeders, leechers) tallies.
    pub fn get_total_peers(&self) -> (r: (usize, usize))
        ensures
            r.0 == self.total_seeders_count,
            r.1 == self.total_leechers_count,
    {
        (self.total_seeders_count, self.total_leechers_count)
    }

    /// The peers with a session entry.
    pub fn get_connected_peers(&self) -> (r: Vec<BtPeer>)
        ensures
            r@.len() == self.spec_sessions().len(),
            forall|i: int|
                0 <= i < r@.len() ==> r@[i].ip@ == self.spec_sessions()[i].0.ip@ && r@[i].port
                    == self.spec_sessions()[i].0.port,
    {
        let mut out: Vec<BtPeer> = Vec::new();
        let mut i: usize = 0;
        while i < self.sessions_status.len()
            invariant
                i <= self.spec_sessions().len(),
                out@.len() == i,
                forall|j: int|
                    0 <= j < i ==> out@[j].ip@ == self.spec_sessions()[j].0.ip@ && out@[j].port
                        == self.spec_sessions()[j].0.port,
            decreases self.spec_sessions().len() - i,
        {
            out.push(self.sessions_status[i].0.clone());
            i = i + 1;
        }
        out
    }

    /// Whether a free piece the remote holds exists.
    pub open spec fn spec_has_candidate(&self, bf: Seq<u8>) -> bool {
        exists|i: int|
            0 <= i < self.spec_pieces().len() && self.spec_pieces()[i] is Free && bit_at(bf, i)
    }

    /// Picks the piece to download from a remote with the given bitfield.
    ///
    /// When a free piece the remote holds exists, the lowest such index
    /// is claimed and moves to `Downloading`. When no piece at all is
    /// free (endgame), a currently downloading piece is returned at
    /// random, without changing any state. Otherwise nothing is selected.
    pub fn select_piece(&mut self, bitfield: &Bitfield) -> (r: Result<
        Option<u32>,
        AtomicTorrentStatusError,
    >)
        requires
            old(self).wf(),
            8 * bitfield@.len() >= old(self).spec_pieces().len(),
        ensures
            final(self).wf(),
            r is Ok,
            old(self).spec_has_candidate(bitfield@) ==> (r matches Ok(o) && o matches Some(idx)
                && 0 <= idx < old(self).spec_pieces().len() && old(self).spec_pieces()[idx as int] is Free && bit_at(bitfield@, idx as int) && (forall|j: int|
                0 <= j < idx ==> !(old(self).spec_pieces()[j] is Free && bit_at(bitfield@, j)))
                && final(self).spec_pieces() == old(self).spec_pieces().update(
                idx as int,
                PieceStatus::Downloading,
            ) && final(self).spec_downloading() == old(self).spec_downloading() + 1 && final(self).spec_free() == old(self).spec_free() - 1 && final(self).spec_finished() == old(self).spec_finished()),
            !old(self).spec_has_candidate(bitfield@) && old(self).spec_free() > 0 ==> r == Ok::<
                Option<u32>,
                AtomicTorrentStatusError,
            >(None) && *final(self) == *old(self),
            old(self).spec_free() == 0 && old(self).spec_downloading() > 0 ==> (r matches Ok(o)
                && o matches Some(idx) && 0 <= idx < old(self).spec_pieces().len() && old(self).spec_pieces()[idx as int] is Downloading && *final(self) == *old(self)),
            old(self).spec_free() == 0 && old(self).spec_downloading() == 0 ==> r == Ok::<
                Option<u32>,
                AtomicTorrentStatusError,
            >(None) && *final(self) == *old(self),
            final(self).spec_current_peers() == old(self).spec_current_peers(),
            final(self).spec_all_current_peers() == old(self).spec_all_current_peers(),
            final(self).same_torrent_and_config(old(self)),
            final(self).spec_sessions() == old(self).spec_sessions(),
            final(self).total_seeders_count == old(self).total_seeders_count,
            final(self).total_leechers_count == old(self).total_leechers_count,
    {
        let total = self.pieces_status.len();
        if self.free_pieces == 0 {
            // endgame: no free piece anywhere; duplicate a downloading one
            let mut downloading: Vec<usize> = Vec::new();
            let mut i: usize = 0;
            while i < total
                invariant
                    i <= total,
                    total == self.spec_pieces().len(),
                    total <= u32::MAX,
                    forall|m: int|
                        0 <= m < downloading@.len() ==> #[trigger] downloading@[m] < i
                            && self.spec_pieces()[downloading@[m] as int] is Downloading,
                    forall|j: int|
                        0 <= j < i && self.spec_pieces()[j] is Downloading ==> exists|m: int|
                            0 <= m < downloading@.len() && downloading@[m] == j,
                decreases total - i,
            {
                let is_downloading = match self.pieces_status[i] {
                    PieceStatus::Downloading => true,
                    _ => false,
                };
                if is_downloading {
                    let ghost prevd = downloading@;
                    downloading.push(i);
                    proof {
                        assert forall|j: int|
                            0 <= j < i + 1 && self.spec_pieces()[j] is Downloading implies exists|m: int|
                            0 <= m < downloading@.len() && downloading@[m] == j by {
                            if j == i {
                                assert(downloading@[downloading@.len() - 1] == j);
                            } else {
                                let m = choose|m: int|
                                    0 <= m < prevd.len() && prevd[m] == j;
                                assert(downloading@[m] == j);
                            }
                        }
                    }
                }
                i = i + 1;
            }
            if downloading.len() == 0 {
                proof {
                    if self.spec_downloading() > 0 {
                        lemma_count_nonzero_exists(self.spec_pieces(), PieceStatus::Downloading);
                    }
                    if self.spec_has_candidate(bitfield@) {
                        let c = choose|i: int|
                            0 <= i < self.spec_pieces().len() && self.spec_pieces()[i] is Free
                                && bit_at(bitfield@, i);
                        lemma_count_nonzero_at(self.spec_pieces(), PieceStatus::Free, c);
                    }
                }
                return Ok(None);
            }
            let pick = crate::status::random_below(downloading.len());
            let idx = downloading[pick];
            proof {
                if self.spec_has_candidate(bitfield@) {
                    let c = choose|i: int|
                        0 <= i < self.spec_pieces().len() && self.spec_pieces()[i] is Free
                            && bit_at(bitfield@, i);
                    lemma_count_nonzero_at(self.spec_pieces(), PieceStatus::Free, c);
                }
                if self.spec_downloading() == 0 {
                    lemma_count_zero_at(self.spec_pieces(), PieceStatus::Downloading, downloading@[pick as int] as int);
                }
            }
            return Ok(Some(idx as u32));
        }
        // normal selection: the lowest free piece the remote holds
        let mut i: usize = 0;
        while i < total
            invariant
                *self == *old(self),
                self.wf(),
                total == self.spec_pieces().len(),
                total <= u32::MAX,
                i <= total,
                8 * bitfield@.len() >= total,
                forall|j: int|
                    0 <= j < i ==> !(self.spec_pieces()[j] is Free && bit_at(bitfield@, j)),
            decreases total - i,
        {
            let is_free = match self.pieces_status[i] {
                PieceStatus::Free => true,
                _ => false,
            };
            if is_free && bitfield.has_piece(i as u32) {
                let ghost prev = self.spec_pieces();
                proof {
                    assert(old(self).spec_pieces()[i as int] is Free && bit_at(
                        bitfield@,
                        i as int,
                    ));
                    assert(old(self).spec_has_candidate(bitfield@));
                    lemma_count_nonzero_at(prev, PieceStatus::Free, i as int);
                    lemma_count_update(prev, i as int, PieceStatus::Downloading, PieceStatus::Free);
                    lemma_count_update(
                        prev,
                        i as int,
                        PieceStatus::Downloading,
                        PieceStatus::Downloading,
                    );
                    lemma_count_update(
                        prev,
                        i as int,
                        PieceStatus::Downloading,
                        PieceStatus::Finished,
                    );
                    lemma_count_bounds(prev, PieceStatus::Downloading);
                }
                self.pieces_status[i] = PieceStatus::Downloading;
                self.downloading_pieces = self.downloading_pieces + 1;
                self.free_pieces = self.free_pieces - 1;
                return Ok(Some(i as u32));
            }
            i = i + 1;
        }
        // no free piece matches the remote's bitfield
        proof {
            if self.spec_has_candidate(bitfield@) {
                let c = choose|j: int|
                    0 <= j < self.spec_pieces().len() && self.spec_pieces()[j] is Free && bit_at(
                        bitfield@,
                        j,
                    );
            }
        }
        Ok(None)
    }

    /// Marks a downloading piece finished. Fails with
    /// `InvalidPieceIndex` when the index is out of range and with
    /// `PieceWasNotDownloading` when the piece is in any other state.
    pub fn piece_downloaded(&mut self, index: u32) -> (r: Result<(), AtomicTorrentStatusError>)
        requires
            old(self).wf(),
        ensures
            final(self).wf(),
            r is Ok <==> (index < old(self).spec_pieces().len() && old(self).spec_pieces()[index as int] is Downloading),
            index >= old(self).spec_pieces().len() ==> r == Err::<(), _>(
                AtomicTorrentStatusError::InvalidPieceIndex,
            ),
            index < old(self).spec_pieces().len() && !(old(self).spec_pieces()[index as int] is Downloading) ==> r == Err::<(), _>(
                AtomicTorrentStatusError::PieceWasNotDownloading,
            ),
            r is Ok ==> final(self).spec_pieces() == old(self).spec_pieces().update(
                index as int,
                PieceStatus::Finished,
            ) && final(self).spec_finished() == old(self).spec_finished() + 1 && final(self).spec_downloading() == old(self).spec_downloading() - 1 && final(self).spec_free()
                == old(self).spec_free(),
            r is Err ==> *final(self) == *old(self),
            final(self).spec_current_peers() == old(self).spec_current_peers(),
            final(self).spec_all_current_peers() == old(self).spec_all_current_peers(),
            final(self).same_torrent_and_config(old(self)),
            final(self).spec_sessions() == old(self).spec_sessions(),
            final(self).total_seeders_count == old(self).total_seeders_count,
            final(self).total_leechers_count == old(self).total_leechers_count,
    {
        if (index as usize) >= self.pieces_status.len() {
            return Err(AtomicTorrentStatusError::InvalidPieceIndex);
        }
        let i = index as usize;
        let is_downloading = match self.pieces_status[i] {
            PieceStatus::Downloading => true,
            _ => false,
        };
        if !is_downloading {
            return Err(AtomicTorrentStatusError::PieceWasNotDownloading);
        }
        let ghost prev = self.spec_pieces();
        proof {
            lemma_count_nonzero_at(prev, PieceStatus::Downloading, i as int);
            lemma_count_bounds(prev, PieceStatus::Finished);
            lemma_count_update(prev, i as int, PieceStatus::Finished, PieceStatus::Free);
            lemma_count_update(prev, i as int, PieceStatus::Finished, PieceStatus::Downloading);
            lemma_count_update(prev, i as int, PieceStatus::Finished, PieceStatus::Finished);
        }
        self.pieces_status[i] = PieceStatus::Finished;
        self.downloading_pieces = self.downloading_pieces - 1;
        self.finished_pieces = self.finished_pieces + 1;
        Ok(())
    }

    /// Releases a downloading piece back to `Free`. Fails exactly as
    /// `piece_downloaded` does.
    pub fn piece_aborted(&mut self, index: u32) -> (r: Result<(), AtomicTorrentStatusError>)
        requires
            old(self).wf(),
        ensures
            final(self).wf(),
            r is Ok <==> (index < old(self).spec_pieces().len() && old(self).spec_pieces()[index as int] is Downloading),
            index >= old(self).spec_pieces().len() ==> r == Err::<(), _>(
                AtomicTorrentStatusError::InvalidPieceIndex,
            ),
            index < old(self).spec_pieces().len() && !(old(self).spec_pieces()[index as int] is Downloading) ==> r == Err::<(), _>(
                AtomicTorrentStatusError::PieceWasNotDownloading,
            ),
            r is Ok ==> final(self).spec_pieces() == old(self).spec_pieces().update(
                index as int,
                PieceStatus::Free,
            ) && final(self).spec_free() == old(self).spec_free() + 1 && final(self).spec_downloading() == old(self).spec_downloading() - 1 && final(self).spec_finished() == old(self).spec_finished(),
            r is Err ==> *final(self) == *old(self),
            final(self).spec_current_peers() == old(self).spec_current_peers(),
            final(self).spec_all_current_peers() == old(self).spec_all_current_peers(),
            final(self).same_torrent_and_config(old(self)),
            final(self).spec_sessions() == old(self).spec_sessions(),
            final(self).total_seeders_count == old(self).total_seeders_count,
            final(self).total_leechers_count == old(self).total_leechers_count,
    {
        if (index as usize) >= self.pieces_status.len() {
            return Err(AtomicTorrentStatusError::InvalidPieceIndex);
        }
        let i = index as usize;
        let is_downloading = match self.pieces_status[i] {
            PieceStatus::Downloading => true,
            _ => false,
        };
        if !is_downloading {
            return Err(AtomicTorrentStatusError::PieceWasNotDownloading);
        }
        let ghost prev = self.spec_pieces();
        proof {
            lemma_count_nonzero_at(prev, PieceStatus::Downloading, i as int);
            lemma_count_bounds(prev, PieceStatus::Free);
            lemma_count_update(prev, i as int, PieceStatus::Free, PieceStatus::Free);
            lemma_count_update(prev, i as int, PieceStatus::Free, PieceStatus::Downloading);
            lemma_count_update(prev, i as int, PieceStatus::Free, PieceStatus::Finished);
        }
        self.pieces_status[i] = PieceStatus::Free;
        self.downloading_pieces = self.downloading_pieces - 1;
        self.free_pieces = self.free_pieces + 1;
        Ok(())
    }

    /// Confirms a piece is retrievable: it must be `Finished`.
    pub fn check_piece_finished(&self, index: u32) -> (r: Result<(), AtomicTorrentStatusError>)
        ensures
            r is Ok <==> (index < self.spec_pieces().len() && self.spec_pieces()[index as int] is Finished),
            index >= self.spec_pieces().len() ==> r == Err::<(), _>(
                AtomicTorrentStatusError::InvalidPieceIndex,
            ),
            index < self.spec_pieces().len() && !(self.spec_pieces()[index as int] is Finished)
                ==> r == Err::<(), _>(AtomicTorrentStatusError::PieceWasNotFinished),
    {
        if (index as usize) >= self.pieces_status.len() {
            return Err(AtomicTorrentStatusError::InvalidPieceIndex);
        }
        match self.pieces_status[index as usize] {
            PieceStatus::Finished => Ok(()),
            _ => Err(AtomicTorrentStatusError::PieceWasNotFinished),
        }
    }

    /// The bitfield of finished pieces.
    pub fn get_bitfield(&self) -> (r: Result<Bitfield, AtomicTorrentStatusError>)
        requires
            self.wf(),
        ensures
            r matches Ok(bf) && bf@.len() == (self.spec_pieces().len() + 7) / 8 && (forall|i: int|
                0 <= i < self.spec_pieces().len() ==> bit_at(bf@, i) == (self.spec_pieces()[i] is Finished)) && (forall|i: int|
                self.spec_pieces().len() <= i < 8 * bf@.len() ==> !bit_at(bf@, i)),
    {
        Ok(Bitfield::from(&self.pieces_status))
    }
}

/// All-free tables count as all free.
proof fn lemma_count_all_free(s: Seq<PieceStatus>)
    requires
        forall|i: int| 0 <= i < s.len() ==> s[i] is Free,
    ensures
        count_of(s, PieceStatus::Free) == s.len(),
        count_of(s, PieceStatus::Downloading) == 0,
        count_of(s, PieceStatus::Finished) == 0,
    decreases s.len(),
{
    if s.len() > 0 {
        assert(forall|i: int|
            0 <= i < s.drop_last().len() ==> #[trigger] s.drop_last()[i] == s[i]);
        lemma_count_all_free(s.drop_last());
    }
}

/// A slot holding a state forces a positive count for it.
proof fn lemma_count_nonzero_at(s: Seq<PieceStatus>, st: PieceStatus, i: int)
    requires
        0 <= i < s.len(),
        s[i] == st,
    ensures
        count_of(s, st) > 0,
    decreases s.len(),
{
    lemma_count_bounds(s.drop_last(), st);
    if i == s.len() - 1 {
    } else {
        assert(s.drop_last()[i] == s[i]);
        lemma_count_nonzero_at(s.drop_last(), st, i);
    }
}

/// With a zero count, no slot holds the state.
proof fn lemma_count_zero_at(s: Seq<PieceStatus>, st: PieceStatus, i: int)
    requires
        0 <= i < s.len(),
        count_of(s, st) == 0,
    ensures
        s[i] != st,
{
    if s[i] == st {
        lemma_count_nonzero_at(s, st, i);
    }
}

/// Relies on rand::Rng::gen_range over rand::thread_rng: a value drawn
/// below the bound; which one depends on the generator's state, so only
/// the bound is promised.
#[verifier::external_body]
pub fn random_below(n: usize) -> (r: usize)
    requires
        n > 0,
    ensures
        r < n,
{
    rand::Rng::gen_range(&mut rand::thread_rng(), 0..n)
}

/// One transition of `select_piece` that claimed a free piece: the claim
/// is recorded as `Downloading`.
pub open spec fn free_claim(pre: Seq<PieceStatus>, post: Seq<PieceStatus>, idx: int) -> bool {
    &&& 0 <= idx < pre.len()
    &&& pre[idx] is Free
    &&& post == pre.update(idx, PieceStatus::Downloading)
}

/// Two piece claims in a row never take the same free piece: the first
/// claim moves its piece out of `Free`, and the second only takes a
/// piece that is free when it runs.
pub proof fn lemma_distinct_free_claims(
    s0: Seq<PieceStatus>,
    s1: Seq<PieceStatus>,
    s2: Seq<PieceStatus>,
    i: int,
    j: int,
)
    requires
        free_claim(s0, s1, i),
        free_claim(s1, s2, j),
    ensures
        i != j,
{
    assert(s1[i] is Downloading);
}

/// Finishing the same piece twice fails the second time: the first
/// success leaves the piece `Finished`, no longer `Downloading`.
pub proof fn lemma_piece_downloaded_twice(s0: Seq<PieceStatus>, s1: Seq<PieceStatus>, idx: int)
    requires
        0 <= idx < s0.len(),
        s0[idx] is Downloading,
        s1 == s0.update(idx, PieceStatus::Finished),
    ensures
        !(s1[idx] is Downloading),
{
}

/// Releasing a piece that is not `Downloading` fails: the abort
/// transition demands a downloading piece, so aborting a `Free` piece is
/// refused.
pub proof fn lemma_piece_aborted_on_free_fails(s: Seq<PieceStatus>, idx: int)
    requires
        0 <= idx < s.len(),
        s[idx] is Free,
    ensures
        !(s[idx] is Downloading),
{
}

} // verus!
