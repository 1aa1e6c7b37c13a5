//! The tracker's announce reply as the client reads it: interval,
//! seeder and leecher counts, and the peer list in either dictionary or
//! compact form.

use vstd::prelude::*;
use crate::bencode::{
    BValue, Bencode, BencodeError, bpair_views, bview, bviews, lemma_bpair_views_index,
    lemma_bpair_views_len, lemma_bviews_index, lemma_bviews_len,
};
use crate::bt_peer::{BtPeer, BtPeerError, spec_peer_from};
use crate::byte_util::{copy_bytes, eq_bytes};
use crate::message::u32_from_be;
use crate::numerals::nat_digit_chars;
use vstd::string::StringExecFns;

verus! {

/// A parsed announce reply.
#[derive(Debug)]
pub struct TrackerResponse {
    pub interval: i64,
    pub complete: i64,
    pub incomplete: i64,
    pub peers: Vec<BtPeer>,
}

#[derive(Debug)]
pub enum FromTrackerResponseError {
    DecodeResponseError(BencodeError),
    InvalidInterval,
    InvalidComplete,
    InvalidIncomplete,
    InvalidPeers(BtPeerError),
    NotADict,
    NotAList,
}

pub open spec fn key_interval() -> Seq<u8> {
    seq![105u8, 110u8, 116u8, 101u8, 114u8, 118u8, 97u8, 108u8]
}

pub open spec fn key_complete() -> Seq<u8> {
    seq![99u8, 111u8, 109u8, 112u8, 108u8, 101u8, 116u8, 101u8]
}

pub open spec fn key_incomplete() -> Seq<u8> {
    seq![105u8, 110u8, 99u8, 111u8, 109u8, 112u8, 108u8, 101u8, 116u8, 101u8]
}

pub open spec fn key_peers() -> Seq<u8> {
    seq![112u8, 101u8, 101u8, 114u8, 115u8]
}

/// The dotted-quad text of a compact peer entry, and its port.
pub open spec fn compact_ip_chars(b: Seq<u8>, i: int) -> Seq<char> {
    nat_digit_chars(b[6 * i] as int) + seq!['.'] + nat_digit_chars(b[6 * i + 1] as int)
        + seq!['.'] + nat_digit_chars(b[6 * i + 2] as int) + seq!['.'] + nat_digit_chars(
        b[6 * i + 3] as int,
    )
}

pub open spec fn compact_port(b: Seq<u8>, i: int) -> int {
    b[6 * i + 4] * 256 + b[6 * i + 5]
}

/// What the peer list value yields: for each peer its reported id (when
/// the dictionary form carries one), its address text and its port.
pub open spec fn spec_peers_list(items: Seq<BValue>) -> Result<
    Seq<(Option<Seq<u8>>, Seq<char>, int)>,
    FromTrackerResponseError,
>
    decreases items.len(),
{
    if items.len() == 0 {
        Ok(Seq::empty())
    } else {
        match spec_peer_from(items[0]) {
            Ok(f) => match spec_peers_list(items.drop_first()) {
                Ok(rest) => Ok(seq![(Some(f.0), f.1, f.2)] + rest),
                Err(e) => Err(e),
            },
            Err(e) => Err(FromTrackerResponseError::InvalidPeers(e)),
        }
    }
}

pub open spec fn spec_peers_value(v: BValue) -> Result<
    Seq<(Option<Seq<u8>>, Seq<char>, int)>,
    FromTrackerResponseError,
> {
    match v {
        BValue::List(items) => spec_peers_list(items),
        BValue::Str(s) => Ok(
            Seq::new(
                s.len() / 6,
                |i: int| (None, compact_ip_chars(s, i), compact_port(s, i)),
            ),
        ),
        _ => Err(FromTrackerResponseError::NotAList),
    }
}

/// The read peers spell out exactly the raw peer entries.
pub open spec fn peers_match(raw: Seq<(Option<Seq<u8>>, Seq<char>, int)>, ps: Seq<BtPeer>) -> bool {
    ps.len() == raw.len() && (forall|i: int|
        0 <= i < raw.len() ==> {
            &&& ((#[trigger] raw[i]).0 is Some <==> ps[i].peer_id is Some)
            &&& (raw[i].0 matches Some(idb) ==> (ps[i].peer_id matches Some(v) && v@ == idb))
            &&& ps[i].ip@ == raw[i].1
            &&& ps[i].port == raw[i].2
        })
}

/// The reply fields gathered while walking the reply dictionary in
/// entry order.
pub open spec fn spec_tracker_response_fold(
    entries: Seq<(Seq<u8>, BValue)>,
    interval: int,
    complete: int,
    incomplete: int,
    peers: Seq<(Option<Seq<u8>>, Seq<char>, int)>,
) -> Result<(int, int, int, Seq<(Option<Seq<u8>>, Seq<char>, int)>), FromTrackerResponseError>
    decreases entries.len(),
{
    if entries.len() == 0 {
        Ok((interval, complete, incomplete, peers))
    } else {
        let k = entries[0].0;
        let v = entries[0].1;
        let rest = entries.drop_first();
        if k == key_interval() {
            match v {
                BValue::Int(n) => spec_tracker_response_fold(rest, n, complete, incomplete, peers),
                _ => Err(FromTrackerResponseError::InvalidInterval),
            }
        } else if k == key_complete() {
            match v {
                BValue::Int(n) => spec_tracker_response_fold(rest, interval, n, incomplete, peers),
                _ => Err(FromTrackerResponseError::InvalidComplete),
            }
        } else if k == key_incomplete() {
            match v {
                BValue::Int(n) => spec_tracker_response_fold(rest, interval, complete, n, peers),
                _ => Err(FromTrackerResponseError::InvalidIncomplete),
            }
        } else if k == key_peers() {
            match spec_peers_value(v) {
                Ok(ps) => spec_tracker_response_fold(rest, interval, complete, incomplete, ps),
                Err(e) => Err(e),
            }
        } else {
            spec_tracker_response_fold(rest, interval, complete, incomplete, peers)
        }
    }
}

impl TrackerResponse {
    /// Reads an announce reply from its bencoded bytes. The `peers`
    /// value may be a list of peer dictionaries or a compact byte
    /// string of 6-byte entries; each complete entry yields one peer.
    pub fn from(response: Vec<u8>) -> (r: Result<TrackerResponse, FromTrackerResponseError>)
        ensures
            r matches Ok(t) ==> (crate::bencode::spec_decode(response@) matches Some(p) && p.0
                matches BValue::Dict(es) && spec_tracker_response_fold(es, 0, 0, 0, Seq::empty())
                matches Ok(acc) && t.interval == acc.0 && t.complete == acc.1 && t.incomplete
                == acc.2 && peers_match(acc.3, t.peers@)),
            r matches Err(e) ==> {
                ||| (crate::bencode::spec_decode(response@) is None && e is DecodeResponseError)
                ||| (crate::bencode::spec_decode(response@) matches Some(p) && !(p.0 is Dict) && e
                    == FromTrackerResponseError::NotADict)
                ||| (crate::bencode::spec_decode(response@) matches Some(p) && p.0
                    matches BValue::Dict(es) && spec_tracker_response_fold(es, 0, 0, 0, Seq::empty())
                    == Err::<(int, int, int, Seq<(Option<Seq<u8>>, Seq<char>, int)>), _>(e))
            },
    {
        let decoded_res = match Bencode::decode(response.as_slice()) {
            Ok(d) => d,
            Err(e) => {
                return Err(FromTrackerResponseError::DecodeResponseError(e));
            },
        };
        let d = match &decoded_res {
            Bencode::BDict(d) => d,
            _ => {
                return Err(FromTrackerResponseError::NotADict);
            },
        };
        let ghost es = bpair_views(d@);
        proof {
            lemma_bpair_views_len(d@);
            assert(es.skip(0) =~= es);
        }
        let lit_interval: [u8; 8] = [105, 110, 116, 101, 114, 118, 97, 108];
        let lit_complete: [u8; 8] = [99, 111, 109, 112, 108, 101, 116, 101];
        let lit_incomplete: [u8; 10] = [105, 110, 99, 111, 109, 112, 108, 101, 116, 101];
        let lit_peers: [u8; 5] = [112, 101, 101, 114, 115];
        proof {
            assert(lit_interval@ =~= key_interval());
            assert(lit_complete@ =~= key_complete());
            assert(lit_incomplete@ =~= key_incomplete());
            assert(lit_peers@ =~= key_peers());
        }
        let mut interval: i64 = 0;
        let mut complete: i64 = 0;
        let mut incomplete: i64 = 0;
        let mut peers: Vec<BtPeer> = Vec::new();
        let ghost mut raws: Seq<(Option<Seq<u8>>, Seq<char>, int)> = Seq::empty();
        let mut i: usize = 0;
        while i < d.len()
            invariant
                i <= d@.len(),
                es == bpair_views(d@),
                es.len() == d@.len(),
                decoded_res == Bencode::BDict(*d),
                crate::bencode::spec_decode(response@) is Some,
                (crate::bencode::spec_decode(response@)->Some_0).0 == BValue::Dict(es),
                lit_interval@ == key_interval(),
                lit_complete@ == key_complete(),
                lit_incomplete@ == key_incomplete(),
                lit_peers@ == key_peers(),
                peers_match(raws, peers@),
                spec_tracker_response_fold(es, 0, 0, 0, Seq::empty())
                    == spec_tracker_response_fold(
                    es.skip(i as int),
                    interval as int,
                    complete as int,
                    incomplete as int,
                    raws,
                ),
            decreases d@.len() - i,
        {
            proof {
                lemma_bpair_views_index(d@, i as int);
                assert(es.skip(i as int)[0] == es[i as int]);
                assert(es.skip(i as int).drop_first() =~= es.skip(i + 1));
            }
            let k = &d[i].0;
            let v = &d[i].1;
            if eq_bytes(k.as_slice(), lit_interval.as_slice()) {
                match v {
                    Bencode::BNumber(n) => {
                        interval = *n;
                    },
                    _ => {
                        return Err(FromTrackerResponseError::InvalidInterval);
                    },
                }
            } else if eq_bytes(k.as_slice(), lit_complete.as_slice()) {
                match v {
                    Bencode::BNumber(n) => {
                        complete = *n;
                    },
                    _ => {
                        return Err(FromTrackerResponseError::InvalidComplete);
                    },
                }
            } else if eq_bytes(k.as_slice(), lit_incomplete.as_slice()) {
                match v {
                    Bencode::BNumber(n) => {
                        incomplete = *n;
                    },
                    _ => {
                        return Err(FromTrackerResponseError::InvalidIncomplete);
                    },
                }
            } else if eq_bytes(k.as_slice(), lit_peers.as_slice()) {
                match TrackerResponse::create_peers(v) {
                    Ok(ps) => {
                        proof {
                            raws = spec_peers_value(bview(d@[i as int].1))->Ok_0;
                        }
                        peers = ps;
                    },
                    Err(e) => {
                        return Err(e);
                    },
                }
            }
            i = i + 1;
        }
        proof {
            assert(es.skip(es.len() as int).len() == 0);
        }
        Ok(TrackerResponse { interval, complete, incomplete, peers })
    }

    /// Reads the peer list from either of its two forms.
    fn create_peers(bencode: &Bencode) -> (r: Result<Vec<BtPeer>, FromTrackerResponseError>)
        ensures
            r matches Ok(ps) ==> (spec_peers_value(bview(*bencode)) matches Ok(raw)
                && peers_match(raw, ps@)),
            r matches Err(e) ==> spec_peers_value(bview(*bencode)) == Err::<
                Seq<(Option<Seq<u8>>, Seq<char>, int)>,
                _,
            >(e),
    {
        match bencode {
            Bencode::BList(list) => TrackerResponse::create_peers_from_dict(list),
            Bencode::BString(s) => {
                let ps = TrackerResponse::create_peers_from_bstring(s.as_slice());
                proof {
                    let raw = spec_peers_value(bview(*bencode))->Ok_0;
                    assert(peers_match(raw, ps@));
                }
                Ok(ps)
            },
            _ => Err(FromTrackerResponseError::NotAList),
        }
    }

    /// Reads a peer list given as bencoded dictionaries.
    fn create_peers_from_dict(list: &Vec<Bencode>) -> (r: Result<
        Vec<BtPeer>,
        FromTrackerResponseError,
    >)
        ensures
            r matches Ok(ps) ==> (spec_peers_list(bviews(list@)) matches Ok(raw) && peers_match(
                raw,
                ps@,
            )),
            r matches Err(e) ==> spec_peers_list(bviews(list@)) == Err::<
                Seq<(Option<Seq<u8>>, Seq<char>, int)>,
                _,
            >(e),
    {
        let ghost vs = bviews(list@);
        proof {
            lemma_bviews_len(list@);
            assert(vs.skip(0) =~= vs);
        }
        let mut peers: Vec<BtPeer> = Vec::new();
        let ghost mut raws: Seq<(Option<Seq<u8>>, Seq<char>, int)> = Seq::empty();
        let mut i: usize = 0;
        while i < list.len()
            invariant
                i <= list@.len(),
                vs == bviews(list@),
                vs.len() == list@.len(),
                peers@.len() == i,
                peers_match(raws, peers@),
                forall|j: int| 0 <= j < i ==> spec_peer_from(#[trigger] vs[j]) is Ok,
                spec_peers_list(vs) matches Ok(full) ==> (spec_peers_list(vs.skip(i as int))
                    matches Ok(rest) && full == raws + rest),
                spec_peers_list(vs) matches Err(e) ==> spec_peers_list(vs.skip(i as int))
                    == Err::<Seq<(Option<Seq<u8>>, Seq<char>, int)>, _>(e),
            decreases list@.len() - i,
        {
            proof {
                lemma_bviews_index(list@, i as int);
                assert(vs.skip(i as int)[0] == vs[i as int]);
                assert(vs.skip(i as int).drop_first() =~= vs.skip(i + 1));
            }
            let item = list[i].clone();
            match BtPeer::from(item) {
                Ok(p) => {
                    let ghost f = spec_peer_from(vs[i as int])->Ok_0;
                    let ghost prev = raws;
                    proof {
                        raws = prev + seq![(Some(f.0), f.1, f.2)];
                    }
                    peers.push(p);
                    proof {
                        assert(peers_match(raws, peers@)) by {
                            assert forall|j: int| 0 <= j < raws.len() implies {
                                &&& ((#[trigger] raws[j]).0 is Some <==> peers@[j].peer_id
                                    is Some)
                                &&& (raws[j].0 matches Some(idb) ==> (peers@[j].peer_id
                                    matches Some(v) && v@ == idb))
                                &&& peers@[j].ip@ == raws[j].1
                                &&& peers@[j].port == raws[j].2
                            } by {
                                if j < prev.len() {
                                    assert(raws[j] == prev[j]);
                                }
                            }
                        }
                        if spec_peers_list(vs) matches Ok(full) {
                            assert(prev + (seq![(Some(f.0), f.1, f.2)] + spec_peers_list(
                                vs.skip(i + 1),
                            )->Ok_0) =~= raws + spec_peers_list(vs.skip(i + 1))->Ok_0);
                        }
                    }
                },
                Err(e) => {
                    return Err(FromTrackerResponseError::InvalidPeers(e));
                },
            }
            i = i + 1;
        }
        proof {
            assert(vs.skip(vs.len() as int).len() == 0);
            if spec_peers_list(vs) matches Ok(full) {
                assert(raws + spec_peers_list(vs.skip(vs.len() as int))->Ok_0 =~= raws);
            }
        }
        Ok(peers)
    }

    /// Reads a compact peer list: each complete 6-byte entry is four
    /// address octets and a big-endian port.
    fn create_peers_from_bstring(bstring: &[u8]) -> (r: Vec<BtPeer>)
        ensures
            r@.len() == bstring@.len() / 6,
            forall|i: int|
                0 <= i < r@.len() ==> (#[trigger] r@[i]).ip@ == compact_ip_chars(bstring@, i)
                    && r@[i].port == compact_port(bstring@, i) && r@[i].peer_id is None,
    {
        let count = bstring.len() / 6;
        proof {
            vstd::arithmetic::div_mod::lemma_fundamental_div_mod(bstring@.len() as int, 6);
            vstd::arithmetic::div_mod::lemma_mod_bound(bstring@.len() as int, 6);
        }
        let mut peers: Vec<BtPeer> = Vec::new();
        let mut i: usize = 0;
        while i < count
            invariant
                i <= count,
                count == bstring@.len() / 6,
                6 * count <= bstring@.len(),
                bstring@.len() <= usize::MAX,
                peers@.len() == i,
                forall|j: int|
                    0 <= j < i ==> (#[trigger] peers@[j]).ip@ == compact_ip_chars(bstring@, j)
                        && peers@[j].port == compact_port(bstring@, j) && peers@[j].peer_id
                        is None,
            decreases count - i,
        {
            proof {
                assert(i * 6 + 6 <= 6 * count) by (nonlinear_arith)
                    requires
                        i + 1 <= count,
                ;
                assert(i * 6 == 6 * i) by (nonlinear_arith);
            }
            let base = i * 6;
            let mut ip = crate::numerals::u64_to_string(bstring[base] as u64);
            ip.append(".");
            let o2 = crate::numerals::u64_to_string(bstring[base + 1] as u64);
            ip.append(o2.as_str());
            ip.append(".");
            let o3 = crate::numerals::u64_to_string(bstring[base + 2] as u64);
            ip.append(o3.as_str());
            ip.append(".");
            let o4 = crate::numerals::u64_to_string(bstring[base + 3] as u64);
            ip.append(o4.as_str());
            let port: i64 = bstring[base + 4] as i64 * 256 + bstring[base + 5] as i64;
            let peer = BtPeer::new(ip, port);
            proof {
                reveal_strlit(".");
                assert("."@ =~= seq!['.']);
                assert(peer.ip@ =~= compact_ip_chars(bstring@, i as int));
            }
            peers.push(peer);
            i = i + 1;
        }
        peers
    }
}

} // verus!
