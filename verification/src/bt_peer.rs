//! A peer as the client sees it: its address, and the identifiers
//! reported by the tracker or learned during the handshake. Two peers
//! are the same peer exactly when ip and port agree.

use vstd::prelude::*;
use vstd::utf8::{decode_utf8, valid_utf8};
use crate::bencode::{
    BValue, Bencode, bpair_views, bview, lemma_bpair_views_index, lemma_bpair_views_len,
};
use crate::byte_util::{bytes_to_string, copy_bytes, eq_bytes};

verus! {

pub open spec fn key_peer_id() -> Seq<u8> {
    seq![112u8, 101u8, 101u8, 114u8, 32u8, 105u8, 100u8]
}

pub open spec fn key_ip() -> Seq<u8> {
    seq![105u8, 112u8]
}

pub open spec fn key_port() -> Seq<u8> {
    seq![112u8, 111u8, 114u8, 116u8]
}

/// One peer of a swarm, from the client's point of view.
#[derive(Debug)]
pub struct BtPeer {
    pub peer_id: Option<Vec<u8>>,
    pub ip: String,
    pub port: i64,
    pub info_hash: Option<Vec<u8>>,
}

#[derive(Debug)]
pub enum BtPeerError {
    InvalidPeerId,
    InvalidIp,
    InvalidPort,
    NotADict,
    HandshakeError,
}

/// Identity: the pair (ip, port); the self-reported id is not trusted.
impl PartialEq for BtPeer {
    fn eq(&self, other: &Self) -> (r: bool) {
        self.ip == other.ip && self.port == other.port
    }
}

impl vstd::std_specs::cmp::PartialEqSpecImpl for BtPeer {
    open spec fn obeys_eq_spec() -> bool {
        true
    }

    open spec fn eq_spec(&self, other: &Self) -> bool {
        self.ip@ == other.ip@ && self.port == other.port
    }
}

impl Eq for BtPeer {

}

impl Clone for BtPeer {
    /// Field-for-field copy.
    fn clone(&self) -> (r: BtPeer)
        ensures
            (r.peer_id is Some) == (self.peer_id is Some),
            r.peer_id matches Some(v) ==> self.peer_id matches Some(w) && v@ == w@,
            r.ip@ == self.ip@,
            r.port == self.port,
            (r.info_hash is Some) == (self.info_hash is Some),
            r.info_hash matches Some(v) ==> self.info_hash matches Some(w) && v@ == w@,
    {
        let peer_id = match &self.peer_id {
            Some(id) => Some(copy_bytes(id.as_slice())),
            None => None,
        };
        let info_hash = match &self.info_hash {
            Some(h) => Some(copy_bytes(h.as_slice())),
            None => None,
        };
        proof {
            assert(peer_id matches Some(v) ==> self.peer_id matches Some(w) && v@ =~= w@);
            assert(info_hash matches Some(v) ==> self.info_hash matches Some(w) && v@ =~= w@);
        }
        BtPeer { peer_id, ip: self.ip.clone(), port: self.port, info_hash }
    }
}

/// The peer id, ip and port gathered while walking a bencoded peer
/// dictionary in entry order.
pub open spec fn spec_peer_fold(
    entries: Seq<(Seq<u8>, BValue)>,
    acc: (Seq<u8>, Seq<char>, int),
) -> Result<(Seq<u8>, Seq<char>, int), BtPeerError>
    decreases entries.len(),
{
    if entries.len() == 0 {
        Ok(acc)
    } else {
        let k = entries[0].0;
        let v = entries[0].1;
        let rest = entries.drop_first();
        if k == key_peer_id() {
            match v {
                BValue::Str(s) => spec_peer_fold(rest, (s, acc.1, acc.2)),
                _ => Err(BtPeerError::InvalidPeerId),
            }
        } else if k == key_ip() {
            match v {
                BValue::Str(s) => if valid_utf8(s) {
                    spec_peer_fold(rest, (acc.0, decode_utf8(s), acc.2))
                } else {
                    Err(BtPeerError::InvalidIp)
                },
                _ => Err(BtPeerError::InvalidIp),
            }
        } else if k == key_port() {
            match v {
                BValue::Int(n) => spec_peer_fold(rest, (acc.0, acc.1, n)),
                _ => Err(BtPeerError::InvalidPort),
            }
        } else {
            spec_peer_fold(rest, acc)
        }
    }
}

/// What reading a peer value yields: peer id bytes, ip, and port.
pub open spec fn spec_peer_from(v: BValue) -> Result<(Seq<u8>, Seq<char>, int), BtPeerError> {
    match v {
        BValue::Dict(entries) => spec_peer_fold(entries, (Seq::empty(), Seq::empty(), 0)),
        _ => Err(BtPeerError::NotADict),
    }
}

impl BtPeer {
    /// A peer known only by address.
    pub fn new(ip: String, port: i64) -> (r: BtPeer)
        ensures
            r.peer_id is None,
            r.ip@ == ip@,
            r.port == port,
            r.info_hash is None,
    {
        BtPeer { peer_id: None, ip, port, info_hash: None }
    }

    /// Reads a peer from a bencoded dictionary of the tracker's peer
    /// list.
    pub fn from(bencode: Bencode) -> (r: Result<BtPeer, BtPeerError>)
        ensures
            match r {
                Ok(p) => spec_peer_from(bview(bencode)) matches Ok(f) && p.peer_id matches Some(
                    id,
                ) && id@ == f.0 && p.ip@ == f.1 && p.port == f.2 && p.info_hash is None,
                Err(e) => spec_peer_from(bview(bencode)) == Err::<(Seq<u8>, Seq<char>, int), _>(e),
            },
    {
        let d = match &bencode {
            Bencode::BDict(d) => d,
            _ => {
                return Err(BtPeerError::NotADict);
            },
        };
        let ghost es = bpair_views(d@);
        proof {
            lemma_bpair_views_len(d@);
            assert(es.skip(0) =~= es);
        }
        let lit_peer_id: [u8; 7] = [112, 101, 101, 114, 32, 105, 100];
        let lit_ip: [u8; 2] = [105, 112];
        let lit_port: [u8; 4] = [112, 111, 114, 116];
        proof {
            assert(lit_peer_id@ =~= key_peer_id());
            assert(lit_ip@ =~= key_ip());
            assert(lit_port@ =~= key_port());
        }
        let mut peer_id: Vec<u8> = Vec::new();
        let mut ip = String::new();
        let mut port: i64 = 0;
        let mut i: usize = 0;
        while i < d.len()
            invariant
                i <= d@.len(),
                es == bpair_views(d@),
                es.len() == d@.len(),
                bencode == Bencode::BDict(*d),
                lit_peer_id@ == key_peer_id(),
                lit_ip@ == key_ip(),
                lit_port@ == key_port(),
                spec_peer_fold(es, (Seq::empty(), Seq::empty(), 0)) == spec_peer_fold(
                    es.skip(i as int),
                    (peer_id@, ip@, port as int),
                ),
            decreases d@.len() - i,
        {
            proof {
                lemma_bpair_views_index(d@, i as int);
                assert(es.skip(i as int)[0] == es[i as int]);
                assert(es.skip(i as int).drop_first() =~= es.skip(i + 1));
            }
            let k = &d[i].0;
            let v = &d[i].1;
            if eq_bytes(k.as_slice(), lit_peer_id.as_slice()) {
                match v {
                    Bencode::BString(s) => {
                        peer_id = copy_bytes(s.as_slice());
                    },
                    _ => {
                        return Err(BtPeerError::InvalidPeerId);
                    },
                }
            } else if eq_bytes(k.as_slice(), lit_ip.as_slice()) {
                match v {
                    Bencode::BString(s) => {
                        match bytes_to_string(copy_bytes(s.as_slice())) {
                            Some(u) => {
                                ip = u;
                            },
                            None => {
                                return Err(BtPeerError::InvalidIp);
                            },
                        }
                    },
                    _ => {
                        return Err(BtPeerError::InvalidIp);
                    },
                }
            } else if eq_bytes(k.as_slice(), lit_port.as_slice()) {
                match v {
                    Bencode::BNumber(n) => {
                        port = *n;
                    },
                    _ => {
                        return Err(BtPeerError::InvalidPort);
                    },
                }
            }
            i = i + 1;
        }
        proof {
            assert(es.skip(es.len() as int).len() == 0);
        }
        Ok(BtPeer { peer_id: Some(peer_id), ip, port, info_hash: None })
    }
}

} // verus!
