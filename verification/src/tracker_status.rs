//! The tracker's registry: one swarm per info hash, and the global
//! totals the stats endpoint reports.

use vstd::prelude::*;
use crate::swarm::{ActivePeers, Swarm, find_peer, peer_matches, spec_retain};
use crate::tracker_peer::Peer;

verus! {

/// Seconds in the default one-hour inactivity window.
pub const PEER_TIMEOUT_SECONDS: i64 = 3600;

/// A snapshot of the tracker totals.
#[derive(Debug, Clone, Copy)]
pub struct CurrentTrackerStats {
    pub torrents: u32,
    pub seeders: u32,
    pub leechers: u32,
}

impl CurrentTrackerStats {
    pub fn new(torrents: u32, seeders: u32, leechers: u32) -> (r: CurrentTrackerStats)
        ensures
            r.torrents == torrents,
            r.seeders == seeders,
            r.leechers == leechers,
    {
        CurrentTrackerStats { torrents, seeders, leechers }
    }
}

/// Total seeders over all swarms.
pub open spec fn sum_seeders(s: Seq<([u8; 20], Swarm)>) -> int
    decreases s.len(),
{
    if s.len() == 0 {
        0
    } else {
        sum_seeders(s.drop_last()) + s.last().1.seeders
    }
}

/// Total leechers over all swarms.
pub open spec fn sum_leechers(s: Seq<([u8; 20], Swarm)>) -> int
    decreases s.len(),
{
    if s.len() == 0 {
        0
    } else {
        sum_leechers(s.drop_last()) + s.last().1.leechers
    }
}

/// Index of the registry entry for an info hash, if present.
pub open spec fn find_swarm(s: Seq<([u8; 20], Swarm)>, id: Seq<u8>) -> Option<int>
    decreases s.len(),
{
    if s.len() == 0 {
        None
    } else if s[0].0@ == id {
        Some(0)
    } else {
        match find_swarm(s.drop_first(), id) {
            Some(i) => Some(i + 1),
            None => None,
        }
    }
}

/// If the first entry for the hash is at `i`, the finder returns `i`;
/// with no entry it returns nothing.
proof fn lemma_find_swarm_split(s: Seq<([u8; 20], Swarm)>, id: Seq<u8>, i: int)
    requires
        0 <= i <= s.len(),
        forall|j: int| 0 <= j < i ==> (#[trigger] s[j]).0@ != id,
    ensures
        i < s.len() && s[i].0@ == id ==> find_swarm(s, id) == Some(i),
        i == s.len() ==> find_swarm(s, id) is None,
    decreases i,
{
    if i > 0 {
        let t = s.drop_first();
        assert(forall|j: int| 0 <= j < t.len() ==> #[trigger] t[j] == s[j + 1]);
        lemma_find_swarm_split(t, id, i - 1);
        if i < s.len() && s[i].0@ == id {
            assert(t[i - 1] == s[i]);
        }
    }
}

/// The swarm after one announce of `p`: same timeout; the table with
/// `p` replacing its old entry, or appended when it is new.
pub open spec fn swarm_announced(pre: Swarm, post: Swarm, p: Peer) -> bool {
    post.peer_timeout == pre.peer_timeout && (match find_peer(pre.peers@, p.id@) {
        Some(k) => post.peers@ == pre.peers@.update(k, (p.id, p)),
        None => post.peers@ == pre.peers@.push((p.id, p)),
    })
}

/// The reply drawn from a swarm: its tallies, and up to `wanted`
/// distinct members.
pub open spec fn reply_of(sw: Swarm, r: ActivePeers, wanted: u32) -> bool {
    r.seeders == sw.seeders && r.leechers == sw.leechers && r.peers@.len() == (
    if wanted <= sw.peers@.len() {
        wanted as int
    } else {
        sw.peers@.len() as int
    }) && (exists|picks: Seq<int>|
        #[trigger] picks.len() == r.peers@.len() && (forall|m: int|
            0 <= m < picks.len() ==> 0 <= #[trigger] picks[m] < sw.peers@.len() && peer_matches(
                r.peers@[m],
                sw.peers@[picks[m]].1,
            )) && (forall|m: int, nn: int| 0 <= m < nn < picks.len() ==> picks[m] != picks[nn]))
}

/// The per-info-hash swarm registry.
#[derive(Debug)]
pub struct AtomicTrackerStatus {
    pub torrent_swarms: Vec<([u8; 20], Swarm)>,
}

impl Default for AtomicTrackerStatus {
    /// An empty registry.
    fn default() -> (r: AtomicTrackerStatus)
        ensures
            r.torrent_swarms@.len() == 0,
            r.wf(),
    {
        AtomicTrackerStatus { torrent_swarms: Vec::new() }
    }
}

impl AtomicTrackerStatus {
    /// Every swarm keeps its tallies in step with its table.
    pub open spec fn wf(&self) -> bool {
        forall|i: int|
            0 <= i < self.torrent_swarms@.len() ==> (#[trigger] self.torrent_swarms@[i].1).wf()
    }

    /// Adds or refreshes a peer in the swarm of the given info hash —
    /// created with the default timeout on first sight — and returns up
    /// to `wanted_peers` of that swarm's peers with its tallies. Every
    /// other swarm is untouched.
    pub fn incoming_peer(&mut self, info_hash: [u8; 20], peer: Peer, wanted_peers: u32) -> (r:
        ActivePeers)
        requires
            old(self).wf(),
            forall|i: int|
                0 <= i < old(self).torrent_swarms@.len()
                    ==> (#[trigger] old(self).torrent_swarms@[i].1).peers@.len() < u32::MAX,
        ensures
            final(self).wf(),
            match find_swarm(old(self).torrent_swarms@, info_hash@) {
                Some(i) => final(self).torrent_swarms@.len() == old(self).torrent_swarms@.len()
                    && (forall|j: int|
                    0 <= j < old(self).torrent_swarms@.len() && j != i ==> #[trigger] final(self).torrent_swarms@[j] == old(self).torrent_swarms@[j]) && final(self).torrent_swarms@[i].0 == old(self).torrent_swarms@[i].0 && swarm_announced(
                    old(self).torrent_swarms@[i].1,
                    final(self).torrent_swarms@[i].1,
                    peer,
                ) && reply_of(final(self).torrent_swarms@[i].1, r, wanted_peers),
                None => final(self).torrent_swarms@.len() == old(self).torrent_swarms@.len() + 1
                    && (forall|j: int|
                    0 <= j < old(self).torrent_swarms@.len() ==> #[trigger] final(self).torrent_swarms@[j] == old(self).torrent_swarms@[j]) && final(self).torrent_swarms@.last().0 == info_hash && final(self).torrent_swarms@.last().1.peer_timeout == PEER_TIMEOUT_SECONDS && final(self).torrent_swarms@.last().1.peers@ == seq![(peer.id, peer)] && reply_of(
                    final(self).torrent_swarms@.last().1,
                    r,
                    wanted_peers,
                ),
            },
    {
        let ghost orig = self.torrent_swarms@;
        let n = self.torrent_swarms.len();
        let mut i: usize = 0;
        while i < n
            invariant
                *self == *old(self),
                orig == self.torrent_swarms@,
                self.wf(),
                i <= n,
                n == self.torrent_swarms@.len(),
                forall|j: int|
                    0 <= j < n ==> (#[trigger] self.torrent_swarms@[j].1).peers@.len() < u32::MAX,
                forall|j: int| 0 <= j < i ==> (#[trigger] orig[j]).0@ != info_hash@,
            decreases n - i,
        {
            let hit = crate::byte_util::eq_bytes(
                self.torrent_swarms[i].0.as_slice(),
                info_hash.as_slice(),
            );
            if hit {
                proof {
                    lemma_find_swarm_split(orig, info_hash@, i as int);
                }
                let entry = self.torrent_swarms.remove(i);
                let (id, mut sw) = entry;
                sw.announce(peer);
                let reply = sw.get_active_peers(wanted_peers);
                self.torrent_swarms.insert(i, (id, sw));
                proof {
                    assert(self.torrent_swarms@ =~= orig.update(i as int, (id, sw)));
                    assert forall|j: int|
                        0 <= j < self.torrent_swarms@.len() implies (#[trigger] self.torrent_swarms@[j].1).wf() by {
                        if j != i {
                            assert(self.torrent_swarms@[j] == orig[j]);
                        }
                    }
                }
                return reply;
            }
            i = i + 1;
        }
        proof {
            lemma_find_swarm_split(orig, info_hash@, n as int);
        }
        let mut sw = Swarm::new(PEER_TIMEOUT_SECONDS);
        sw.announce(peer);
        let reply = sw.get_active_peers(wanted_peers);
        self.torrent_swarms.push((info_hash, sw));
        proof {
            assert(self.torrent_swarms@.last() == (info_hash, sw));
            assert(self.torrent_swarms@.last().1.peers@ =~= seq![(peer.id, peer)]);
            assert forall|j: int|
                0 <= j < self.torrent_swarms@.len() implies (#[trigger] self.torrent_swarms@[j].1).wf() by {
                if j < n {
                    assert(self.torrent_swarms@[j] == orig[j]);
                }
            }
        }
        reply
    }

    /// The tracker totals: number of swarms and the summed tallies,
    /// each saturating at the counter's range.
    pub fn get_global_statistics(&self) -> (r: CurrentTrackerStats)
        ensures
            r.torrents == if self.torrent_swarms@.len() <= u32::MAX {
                self.torrent_swarms@.len() as int
            } else {
                u32::MAX as int
            },
            r.seeders == if sum_seeders(self.torrent_swarms@) <= u32::MAX {
                sum_seeders(self.torrent_swarms@)
            } else {
                u32::MAX as int
            },
            r.leechers == if sum_leechers(self.torrent_swarms@) <= u32::MAX {
                sum_leechers(self.torrent_swarms@)
            } else {
                u32::MAX as int
            },
    {
        let n = self.torrent_swarms.len();
        let mut seeders: u128 = 0;
        let mut leechers: u128 = 0;
        let mut i: usize = 0;
        while i < n
            invariant
                i <= n,
                n == self.torrent_swarms@.len(),
                seeders == sum_seeders(self.torrent_swarms@.take(i as int)),
                leechers == sum_leechers(self.torrent_swarms@.take(i as int)),
                seeders <= i * (u32::MAX as int),
                leechers <= i * (u32::MAX as int),
            decreases n - i,
        {
            let (s, l) = self.torrent_swarms[i].1.get_current_seeders_and_leechers();
            proof {
                let t = self.torrent_swarms@;
                assert(t.take(i + 1).drop_last() =~= t.take(i as int));
                assert(t.take(i + 1).last() == t[i as int]);
                assert(i * (u32::MAX as int) + u32::MAX <= (i + 1) * (u32::MAX as int))
                    by (nonlinear_arith);
                assert(n * (u32::MAX as int) < u128::MAX) by (nonlinear_arith)
                    requires
                        n <= usize::MAX,
                ;
            }
            seeders = seeders + s as u128;
            leechers = leechers + l as u128;
            i = i + 1;
        }
        proof {
            assert(self.torrent_swarms@.take(n as int) =~= self.torrent_swarms@);
        }
        let torrents: u32 = if n <= u32::MAX as usize {
            n as u32
        } else {
            u32::MAX
        };
        let seeders32: u32 = if seeders <= u32::MAX as u128 {
            seeders as u32
        } else {
            u32::MAX
        };
        let leechers32: u32 = if leechers <= u32::MAX as u128 {
            leechers as u32
        } else {
            u32::MAX
        };
        CurrentTrackerStats::new(torrents, seeders32, leechers32)
    }

    /// Evicts inactive peers from every swarm: each swarm becomes
    /// exactly its unexpired entries for the clock value read for it,
    /// under the same key and timeout.
    pub fn remove_inactive_peers(&mut self)
        requires
            old(self).wf(),
        ensures
            final(self).wf(),
            final(self).torrent_swarms@.len() == old(self).torrent_swarms@.len(),
            forall|i: int|
                0 <= i < final(self).torrent_swarms@.len() ==> (#[trigger] final(self).torrent_swarms@[i]).0 == old(self).torrent_swarms@[i].0 && final(self).torrent_swarms@[i].1.peer_timeout == old(self).torrent_swarms@[i].1.peer_timeout
                    && (exists|now: i64|
                    final(self).torrent_swarms@[i].1.peers@ == spec_retain(
                        old(self).torrent_swarms@[i].1.peers@,
                        now,
                        old(self).torrent_swarms@[i].1.peer_timeout,
                    )),
    {
        let ghost orig = self.torrent_swarms@;
        let mut rebuilt: Vec<([u8; 20], Swarm)> = Vec::new();
        while self.torrent_swarms.len() > 0
            invariant
                rebuilt@.len() + self.torrent_swarms@.len() == orig.len(),
                forall|j: int|
                    0 <= j < self.torrent_swarms@.len() ==> #[trigger] self.torrent_swarms@[j]
                        == orig[rebuilt@.len() + j],
                forall|j: int|
                    0 <= j < rebuilt@.len() ==> (#[trigger] rebuilt@[j]).0 == orig[j].0
                        && rebuilt@[j].1.peer_timeout == orig[j].1.peer_timeout && (exists|
                        now: i64,
                    |
                        rebuilt@[j].1.peers@ == spec_retain(
                            orig[j].1.peers@,
                            now,
                            orig[j].1.peer_timeout,
                        )),
                forall|j: int| 0 <= j < rebuilt@.len() ==> (#[trigger] rebuilt@[j].1).wf(),
                forall|j: int| 0 <= j < orig.len() ==> (#[trigger] orig[j].1).wf(),
            decreases self.torrent_swarms@.len(),
        {
            let entry = self.torrent_swarms.remove(0);
            let (id, mut sw) = entry;
            sw.remove_inactive_peers();
            rebuilt.push((id, sw));
        }
        self.torrent_swarms = rebuilt;
    }
}

} // verus!

