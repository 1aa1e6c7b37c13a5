//! One torrent's swarm on the tracker: the peer table keyed by the
//! 20-byte peer id, with seeder and leecher tallies kept in step, and
//! eviction of peers not seen within the timeout.

use vstd::prelude::*;
use crate::status::random_below;
use crate::tracker_peer::{Peer, now_unix_seconds, spec_is_seeder};

verus! {

/// How many table entries are seeders.
pub open spec fn count_seeders(s: Seq<Peer>) -> int
    decreases s.len(),
{
    if s.len() == 0 {
        0
    } else {
        count_seeders(s.drop_last()) + if spec_is_seeder(&s.last()) {
            1int
        } else {
            0int
        }
    }
}

pub proof fn lemma_count_seeders_bounds(s: Seq<Peer>)
    ensures
        0 <= count_seeders(s) <= s.len(),
    decreases s.len(),
{
    if s.len() > 0 {
        lemma_count_seeders_bounds(s.drop_last());
    }
}

pub proof fn lemma_count_seeders_push(s: Seq<Peer>, p: Peer)
    ensures
        count_seeders(s.push(p)) == count_seeders(s) + if spec_is_seeder(&p) {
            1int
        } else {
            0int
        },
{
    assert(s.push(p).drop_last() =~= s);
}

pub proof fn lemma_count_seeders_update(s: Seq<Peer>, i: int, p: Peer)
    requires
        0 <= i < s.len(),
    ensures
        count_seeders(s.update(i, p)) == count_seeders(s) + (if spec_is_seeder(&p) {
            1int
        } else {
            0int
        }) - (if spec_is_seeder(&s[i]) {
            1int
        } else {
            0int
        }),
    decreases s.len(),
{
    let t = s.update(i, p);
    if i == s.len() - 1 {
        assert(t.drop_last() =~= s.drop_last());
    } else {
        assert(t.drop_last() =~= s.drop_last().update(i, p));
        lemma_count_seeders_update(s.drop_last(), i, p);
    }
}

/// The peers of a swarm table.
pub open spec fn peers_of(s: Seq<([u8; 20], Peer)>) -> Seq<Peer> {
    Seq::new(s.len(), |i: int| s[i].1)
}

/// Index of the entry for a peer id, if present.
pub open spec fn find_peer(s: Seq<([u8; 20], Peer)>, id: Seq<u8>) -> Option<int>
    decreases s.len(),
{
    if s.len() == 0 {
        None
    } else if s[0].0@ == id {
        Some(0)
    } else {
        match find_peer(s.drop_first(), id) {
            Some(i) => Some(i + 1),
            None => None,
        }
    }
}

/// The status of one torrent on the tracker.
#[derive(Debug)]
pub struct Swarm {
    pub peers: Vec<([u8; 20], Peer)>,
    pub peer_timeout: i64,
    pub seeders: u32,
    pub leechers: u32,
}

/// The reply to an active-peers request.
#[derive(Debug)]
pub struct ActivePeers {
    pub peers: Vec<Peer>,
    pub seeders: u32,
    pub leechers: u32,
}

impl Swarm {
    /// The tally invariant: the counters are exactly the seeder and
    /// leecher counts of the table.
    pub open spec fn wf(&self) -> bool {
        &&& self.seeders == count_seeders(peers_of(self.peers@))
        &&& self.leechers == peers_of(self.peers@).len() - count_seeders(peers_of(self.peers@))
        &&& self.peers@.len() <= u32::MAX
    }

    /// An empty swarm with the given inactivity timeout in seconds.
    pub fn new(peer_timeout: i64) -> (r: Swarm)
        ensures
            r.wf(),
            r.peers@.len() == 0,
            r.peer_timeout == peer_timeout,
            r.seeders == 0,
            r.leechers == 0,
    {
        Swarm { peers: Vec::new(), peer_timeout, seeders: 0, leechers: 0 }
    }

    /// Inserts or replaces the peer under its id, adjusting the seeder
    /// and leecher tallies by the old and new standing.
    pub fn announce(&mut self, incoming_peer: Peer)
        requires
            old(self).wf(),
            old(self).peers@.len() < u32::MAX,
        ensures
            final(self).wf(),
            final(self).peer_timeout == old(self).peer_timeout,
            match find_peer(old(self).peers@, incoming_peer.id@) {
                Some(i) => final(self).peers@ == old(self).peers@.update(
                    i,
                    (incoming_peer.id, incoming_peer),
                ),
                None => final(self).peers@ == old(self).peers@.push(
                    (incoming_peer.id, incoming_peer),
                ),
            },
    {
        let ghost orig = self.peers@;
        let id: [u8; 20] = incoming_peer.id;
        let mut i: usize = 0;
        let n = self.peers.len();
        while i < n
            invariant
                *self == *old(self),
                self.wf(),
                i <= n,
                n == self.peers@.len(),
                n < u32::MAX,
                id == incoming_peer.id,
                id@ == incoming_peer.id@,
                forall|j: int| 0 <= j < i ==> #[trigger] self.peers@[j].0@ != incoming_peer.id@,
            decreases n - i,
        {
            let hit = crate::byte_util::eq_bytes(
                self.peers[i].0.as_slice(),
                id.as_slice(),
            );
            if hit {
                proof {
                    lemma_find_peer_split(self.peers@, incoming_peer.id@, i as int);
                    lemma_count_seeders_update(peers_of(self.peers@), i as int, incoming_peer);
                    lemma_count_seeders_bounds(peers_of(self.peers@));
                    lemma_count_seeders_at(peers_of(self.peers@), i as int);
                }
                let was_seeder = self.peers[i].1.is_seeder();
                if was_seeder {
                    self.seeders = self.seeders - 1;
                } else {
                    self.leechers = self.leechers - 1;
                }
                let now_seeder = incoming_peer.is_seeder();
                if now_seeder {
                    self.seeders = self.seeders + 1;
                } else {
                    self.leechers = self.leechers + 1;
                }
                self.peers[i] = (id, incoming_peer);
                proof {
                    assert(peers_of(self.peers@) =~= peers_of(old(self).peers@).update(
                        i as int,
                        incoming_peer,
                    ));
                }
                return ;
            }
            i = i + 1;
        }
        proof {
            lemma_find_peer_split(self.peers@, incoming_peer.id@, n as int);
            lemma_count_seeders_push(peers_of(self.peers@), incoming_peer);
            lemma_count_seeders_bounds(peers_of(self.peers@));
        }
        let now_seeder = incoming_peer.is_seeder();
        if now_seeder {
            self.seeders = self.seeders + 1;
        } else {
            self.leechers = self.leechers + 1;
        }
        self.peers.push((id, incoming_peer));
        proof {
            assert(peers_of(self.peers@) =~= peers_of(old(self).peers@).push(incoming_peer));
        }
    }

    /// Up to `wanted_peers` peers drawn from the table at random, with
    /// the current tallies. Each returned peer is a distinct member of
    /// the table: no table slot is handed out twice.
    pub fn get_active_peers(&self, wanted_peers: u32) -> (r: ActivePeers)
        requires
            self.wf(),
        ensures
            r.seeders == self.seeders,
            r.leechers == self.leechers,
            r.peers@.len() == if wanted_peers <= self.peers@.len() {
                wanted_peers as int
            } else {
                self.peers@.len() as int
            },
            exists|picks: Seq<int>|
                #[trigger] picks.len() == r.peers@.len() && (forall|m: int|
                    0 <= m < picks.len() ==> 0 <= #[trigger] picks[m] < self.peers@.len()
                        && peer_matches(r.peers@[m], self.peers@[picks[m]].1)) && (forall|
                    m: int,
                    nn: int,
                |
                    0 <= m < nn < picks.len() ==> picks[m] != picks[nn]),
    {
        let mut indices: Vec<usize> = Vec::new();
        let n = self.peers.len();
        let mut i: usize = 0;
        while i < n
            invariant
                i <= n,
                indices@.len() == i,
                forall|m: int| 0 <= m < i ==> #[trigger] indices@[m] == m,
            decreases n - i,
        {
            indices.push(i);
            i = i + 1;
        }
        let take = if (wanted_peers as usize) <= n {
            wanted_peers as usize
        } else {
            n
        };
        let mut picked: Vec<Peer> = Vec::new();
        let ghost mut picks: Seq<int> = Seq::empty();
        let mut k: usize = 0;
        while k < take
            invariant
                k <= take,
                take <= n,
                n == self.peers@.len(),
                indices@.len() == n - k,
                picked@.len() == k,
                picks.len() == k,
                forall|m: int| 0 <= m < indices@.len() ==> #[trigger] indices@[m] < n,
                forall|a: int, b: int|
                    0 <= a < b < indices@.len() ==> indices@[a] != indices@[b],
                forall|m: int, a: int|
                    0 <= m < picks.len() && 0 <= a < indices@.len() ==> #[trigger] picks[m]
                        != #[trigger] indices@[a],
                forall|m: int|
                    0 <= m < picks.len() ==> 0 <= #[trigger] picks[m] < n && peer_matches(
                        picked@[m],
                        self.peers@[picks[m]].1,
                    ),
                forall|m: int, nn: int| 0 <= m < nn < picks.len() ==> picks[m] != picks[nn],
            decreases take - k,
        {
            let pick = random_below(indices.len());
            let ghost previdx = indices@;
            let idx = indices.swap_remove(pick);
            proof {
                assert(idx == previdx[pick as int]);
                assert(indices@ =~= previdx.update(pick as int, previdx.last()).drop_last());
                assert forall|a: int| 0 <= a < indices@.len() implies #[trigger] indices@[a]
                    != idx by {
                    if a == pick {
                        assert(indices@[a] == previdx[previdx.len() - 1]);
                    }
                }
                assert forall|a: int, b: int|
                    0 <= a < b < indices@.len() implies indices@[a] != indices@[b] by {
                    if a == pick {
                        assert(indices@[a] == previdx[previdx.len() - 1]);
                        assert(indices@[b] == previdx[b]);
                    } else if b == pick {
                        assert(indices@[b] == previdx[previdx.len() - 1]);
                        assert(indices@[a] == previdx[a]);
                    } else {
                        assert(indices@[a] == previdx[a]);
                        assert(indices@[b] == previdx[b]);
                    }
                }
                assert forall|m: int, a: int|
                    0 <= m < picks.len() && 0 <= a < indices@.len() implies #[trigger] picks[m]
                        != #[trigger] indices@[a] by {
                    if a == pick {
                        assert(indices@[a] == previdx[previdx.len() - 1]);
                        assert(picks[m] != previdx[previdx.len() - 1]);
                    } else {
                        assert(indices@[a] == previdx[a]);
                        assert(picks[m] != previdx[a]);
                    }
                }
            }
            let entry = &self.peers[idx];
            let ghost prev = picked@;
            let ghost prevpicks = picks;
            picked.push(entry.1.clone());
            proof {
                picks = prevpicks.push(idx as int);
                assert(peer_matches(picked@[prev.len() as int], self.peers@[idx as int].1));
                assert forall|m: int| 0 <= m < picks.len() implies 0 <= #[trigger] picks[m] < n
                    && peer_matches(picked@[m], self.peers@[picks[m]].1) by {
                    if m < prevpicks.len() {
                        assert(picks[m] == prevpicks[m]);
                        assert(picked@[m] == prev[m]);
                    }
                }
                assert forall|m: int, nn: int|
                    0 <= m < nn < picks.len() implies picks[m] != picks[nn] by {
                    if nn == picks.len() - 1 && m < prevpicks.len() {
                        assert(prevpicks[m] != previdx[pick as int]);
                    }
                }
                assert forall|m: int, a: int|
                    0 <= m < picks.len() && 0 <= a < indices@.len() implies #[trigger] picks[m]
                        != #[trigger] indices@[a] by {
                    if m == picks.len() - 1 {
                        assert(indices@[a] != idx);
                    }
                }
            }
            k = k + 1;
        }
        proof {
            assert(picks.len() == picked@.len() && (forall|m: int|
                0 <= m < picks.len() ==> 0 <= #[trigger] picks[m] < self.peers@.len()
                    && peer_matches(picked@[m], self.peers@[picks[m]].1)) && (forall|
                m: int,
                nn: int,
            |
                0 <= m < nn < picks.len() ==> picks[m] != picks[nn]));
        }
        ActivePeers { peers: picked, seeders: self.seeders, leechers: self.leechers }
    }

    /// The current (seeders, leechers) tallies.
    pub fn get_current_seeders_and_leechers(&self) -> (r: (u32, u32))
        ensures
            r.0 == self.seeders,
            r.1 == self.leechers,
    {
        (self.seeders, self.leechers)
    }

    /// Evicts every peer not seen within the timeout, reading the clock
    /// once: for the time it read, the table becomes exactly its
    /// unexpired entries.
    pub fn remove_inactive_peers(&mut self)
        requires
            old(self).wf(),
        ensures
            final(self).wf(),
            final(self).peer_timeout == old(self).peer_timeout,
            exists|now: i64|
                final(self).peers@ == spec_retain(
                    old(self).peers@,
                    now,
                    old(self).peer_timeout,
                ),
    {
        let now = now_unix_seconds();
        self.remove_peers_older_than(now);
    }

    /// Evicts every peer whose last-seen time is more than the timeout
    /// before `now`: the table becomes exactly its unexpired entries, in
    /// order and untouched, and the tallies follow.
    pub fn remove_peers_older_than(&mut self, now: i64)
        requires
            old(self).wf(),
        ensures
            final(self).wf(),
            final(self).peer_timeout == old(self).peer_timeout,
            final(self).peers@ == spec_retain(old(self).peers@, now, old(self).peer_timeout),
    {
        let timeout = self.peer_timeout;
        let mut taken: Vec<([u8; 20], Peer)> = Vec::new();
        taken.append(&mut self.peers);
        let ghost orig = taken@;
        let mut kept: Vec<([u8; 20], Peer)> = Vec::new();
        let mut kept_seeders: u32 = 0;
        let mut kept_leechers: u32 = 0;
        while taken.len() > 0
            invariant
                kept@.len() + taken@.len() <= orig.len(),
                orig.len() <= u32::MAX,
                kept_seeders == count_seeders(peers_of(kept@)),
                kept_leechers == peers_of(kept@).len() - count_seeders(peers_of(kept@)),
                spec_retain(orig, now, timeout) == kept@ + spec_retain(taken@, now, timeout),
            decreases taken@.len(),
        {
            let ghost pre = taken@;
            let ghost prevk = kept@;
            let entry = taken.remove(0);
            proof {
                assert(taken@ =~= pre.drop_first());
                assert(entry == pre[0]);
                lemma_count_seeders_bounds(peers_of(kept@));
            }
            let last_seen = entry.1.get_last_seen();
            let expired = (now as i128) - (last_seen as i128) > (timeout as i128) || now
                < last_seen;
            if !expired {
                let was_seeder = entry.1.is_seeder();
                proof {
                    lemma_count_seeders_push(peers_of(kept@), pre[0].1);
                }
                kept.push(entry);
                if was_seeder {
                    kept_seeders = kept_seeders + 1;
                } else {
                    kept_leechers = kept_leechers + 1;
                }
                proof {
                    assert(peers_of(kept@) =~= peers_of(prevk).push(pre[0].1));
                    assert(prevk + (seq![pre[0]] + spec_retain(taken@, now, timeout)) =~= kept@
                        + spec_retain(taken@, now, timeout));
                }
            }
        }
        proof {
            assert(spec_retain(taken@, now, timeout) =~= Seq::empty());
            assert(kept@ + Seq::<([u8; 20], Peer)>::empty() =~= kept@);
        }
        self.peers = kept;
        self.seeders = kept_seeders;
        self.leechers = kept_leechers;
    }
}

/// A peer is expired when it was last seen more than the timeout before
/// `now`, or reports a time in the future.
pub open spec fn spec_expired(p: Peer, now: i64, timeout: i64) -> bool {
    now - p.status.last_seen > timeout || now < p.status.last_seen
}

/// The table with exactly its expired peers removed, order and records
/// untouched.
pub open spec fn spec_retain(
    s: Seq<([u8; 20], Peer)>,
    now: i64,
    timeout: i64,
) -> Seq<([u8; 20], Peer)>
    decreases s.len(),
{
    if s.len() == 0 {
        Seq::empty()
    } else if spec_expired(s[0].1, now, timeout) {
        spec_retain(s.drop_first(), now, timeout)
    } else {
        seq![s[0]] + spec_retain(s.drop_first(), now, timeout)
    }
}

/// Same peer up to representation: every observable field agrees.
pub open spec fn peer_matches(a: Peer, b: Peer) -> bool {
    a.id@ == b.id@ && a.ip@ == b.ip@ && a.port == b.port && a.status == b.status
}

/// `find_peer` looked at the first `i` entries without a hit exactly
/// when they all miss.
proof fn lemma_find_peer_split(s: Seq<([u8; 20], Peer)>, id: Seq<u8>, i: int)
    requires
        0 <= i <= s.len(),
        forall|j: int| 0 <= j < i ==> #[trigger] s[j].0@ != id,
    ensures
        i < s.len() && s[i].0@ == id ==> find_peer(s, id) == Some(i),
        i == s.len() ==> find_peer(s, id) is None,
    decreases i,
{
    if i > 0 {
        let t = s.drop_first();
        assert(forall|j: int| 0 <= j < i - 1 ==> #[trigger] t[j] == s[j + 1]);
        lemma_find_peer_split(t, id, i - 1);
        if i < s.len() && s[i].0@ == id {
            assert(t[i - 1] == s[i]);
        }
    }
}

/// A slot's standing contributes to the seeder count.
proof fn lemma_count_seeders_at(s: Seq<Peer>, i: int)
    requires
        0 <= i < s.len(),
    ensures
        spec_is_seeder(&s[i]) ==> count_seeders(s) > 0,
        !spec_is_seeder(&s[i]) ==> count_seeders(s) < s.len(),
    decreases s.len(),
{
    lemma_count_seeders_bounds(s.drop_last());
    if i == s.len() - 1 {
    } else {
        assert(s.drop_last()[i] == s[i]);
        lemma_count_seeders_at(s.drop_last(), i);
    }
}

} // verus!
