//! Peers as the tracker sees them: a 20-byte id, an address, and the
//! announce-reported byte counts that decide seeder or leecher standing.

use vstd::prelude::*;
use vstd::string::StrSliceExecFns;
use vstd::utf8::encode_utf8;
use crate::bencode::{BValue, Bencode, ToBencode, bpair_views, lemma_bpair_views_index, lemma_bpair_views_len, bview};
use crate::byte_util::{copy_bytes, eq_bytes, push_bytes};

verus! {

/// The announce events a peer can report.
#[derive(Debug, Clone, Copy, PartialEq, Eq)]
pub enum PeerEvent {
    Started,
    Stopped,
    Completed,
}

impl PeerEvent {
    /// Parses an event name; exactly "started", "stopped" and
    /// "completed" are known.
    pub fn from_str(s: &str) -> (r: Result<PeerEvent, ()>)
        ensures
            r == Ok::<PeerEvent, ()>(PeerEvent::Started) <==> s@ == "started"@,
            r == Ok::<PeerEvent, ()>(PeerEvent::Stopped) <==> s@ == "stopped"@,
            r == Ok::<PeerEvent, ()>(PeerEvent::Completed) <==> s@ == "completed"@,
    {
        proof {
            reveal_strlit("started");
            reveal_strlit("stopped");
            reveal_strlit("completed");
        }
        let b = s.as_bytes();
        let lit_started: [u8; 7] = [115, 116, 97, 114, 116, 101, 100];
        let lit_stopped: [u8; 7] = [115, 116, 111, 112, 112, 101, 100];
        let lit_completed: [u8; 9] = [99, 111, 109, 112, 108, 101, 116, 101, 100];
        proof {
            assert(vstd::utf8::is_ascii_chars("started"@));
            assert(vstd::utf8::is_ascii_chars("stopped"@));
            assert(vstd::utf8::is_ascii_chars("completed"@));
            vstd::utf8::is_ascii_chars_encode_utf8("started"@);
            vstd::utf8::is_ascii_chars_encode_utf8("stopped"@);
            vstd::utf8::is_ascii_chars_encode_utf8("completed"@);
            assert(lit_started@ =~= encode_utf8("started"@));
            assert(lit_stopped@ =~= encode_utf8("stopped"@));
            assert(lit_completed@ =~= encode_utf8("completed"@));
            vstd::utf8::encode_utf8_decode_utf8("started"@);
            vstd::utf8::encode_utf8_decode_utf8("stopped"@);
            vstd::utf8::encode_utf8_decode_utf8("completed"@);
            vstd::utf8::encode_utf8_decode_utf8(s@);
        }
        if eq_bytes(b, lit_started.as_slice()) {
            Ok(PeerEvent::Started)
        } else if eq_bytes(b, lit_stopped.as_slice()) {
            Ok(PeerEvent::Stopped)
        } else if eq_bytes(b, lit_completed.as_slice()) {
            Ok(PeerEvent::Completed)
        } else {
            Err(())
        }
    }
}

/// Relies on chrono::Local::now (through its timestamp): the current
/// Unix time in whole seconds. A clock reading: nothing is promised of
/// the value.
#[verifier::external_body]
pub fn now_unix_seconds() -> i64 {
    chrono::Local::now().timestamp()
}

/// The announce-reported standing of a peer, and when it was last seen
/// (Unix seconds).
#[derive(Debug)]
pub struct PeerStatus {
    pub uploaded: u64,
    pub downloaded: u64,
    pub left: u64,
    pub event: Option<PeerEvent>,
    pub last_seen: i64,
}

impl PeerStatus {
    /// A status stamped with the current time.
    pub fn new(uploaded: u64, downloaded: u64, left: u64, event: Option<PeerEvent>) -> (r:
        PeerStatus)
        ensures
            r.uploaded == uploaded,
            r.downloaded == downloaded,
            r.left == left,
            r.event == event,
    {
        PeerStatus { uploaded, downloaded, left, event, last_seen: now_unix_seconds() }
    }

    pub fn last_seen(&self) -> (r: i64)
        ensures
            r == self.last_seen,
    {
        self.last_seen
    }
}

impl Clone for PeerStatus {
    /// Field-for-field copy.
    fn clone(&self) -> (r: PeerStatus)
        ensures
            r.uploaded == self.uploaded,
            r.downloaded == self.downloaded,
            r.left == self.left,
            r.event == self.event,
            r.last_seen == self.last_seen,
    {
        PeerStatus {
            uploaded: self.uploaded,
            downloaded: self.downloaded,
            left: self.left,
            event: self.event,
            last_seen: self.last_seen,
        }
    }
}

/// One peer of a swarm, as the tracker records it.
#[derive(Debug)]
pub struct Peer {
    pub id: [u8; 20],
    pub ip: String,
    pub port: u16,
    pub status: PeerStatus,
    pub key: Option<String>,
}

/// A seeder has nothing left to download, or has announced completion.
pub open spec fn spec_is_seeder(p: &Peer) -> bool {
    p.status.left == 0 || p.status.event == Some(PeerEvent::Completed)
}

impl Peer {
    pub fn new(id: [u8; 20], ip: String, port: u16, key: Option<String>, status: PeerStatus) -> (r:
        Peer)
        ensures
            r.id@ == id@,
            r.ip@ == ip@,
            r.port == port,
            r.key == key,
            r.status == status,
    {
        Peer { id, ip, port, status, key }
    }

    pub fn get_last_seen(&self) -> (r: i64)
        ensures
            r == self.status.last_seen,
    {
        self.status.last_seen()
    }

    /// A leecher is any peer that is not a seeder.
    pub fn is_leecher(&self) -> (r: bool)
        ensures
            r == !spec_is_seeder(self),
    {
        !self.is_seeder()
    }

    /// A seeder has `left == 0` or last announced `completed`.
    pub fn is_seeder(&self) -> (r: bool)
        ensures
            r == spec_is_seeder(self),
    {
        if self.status.left == 0 {
            return true;
        }
        match self.status.event {
            Some(PeerEvent::Completed) => true,
            _ => false,
        }
    }
}

impl Clone for Peer {
    /// Field-for-field copy; the key string is preserved.
    fn clone(&self) -> (r: Peer)
        ensures
            r.id@ == self.id@,
            r.ip@ == self.ip@,
            r.port == self.port,
            r.status == self.status,
            spec_is_seeder(&r) == spec_is_seeder(self),
            (r.key is Some) == (self.key is Some),
    {
        let key = match &self.key {
            Some(k) => Some(k.clone()),
            None => None,
        };
        let id: [u8; 20] = self.id;
        Peer { id, ip: self.ip.clone(), port: self.port, status: self.status.clone(), key }
    }
}

pub open spec fn peer_key_id() -> Seq<u8> {
    seq![112u8, 101u8, 101u8, 114u8, 95u8, 105u8, 100u8]
}

pub open spec fn peer_key_ip() -> Seq<u8> {
    seq![105u8, 112u8]
}

pub open spec fn peer_key_port() -> Seq<u8> {
    seq![112u8, 111u8, 114u8, 116u8]
}

impl ToBencode for Peer {
    open spec fn spec_bencode(&self) -> BValue {
        BValue::Dict(
            seq![
                (peer_key_ip(), BValue::Str(encode_utf8(self.ip@))),
                (peer_key_id(), BValue::Str(self.id@)),
                (peer_key_port(), BValue::Int(self.port as int)),
            ],
        )
    }

    fn to_bencode(&self) -> (r: Bencode) {
        let mut pairs: Vec<(Vec<u8>, Bencode)> = Vec::new();
        let lit_ip: [u8; 2] = [105, 112];
        let lit_id: [u8; 7] = [112, 101, 101, 114, 95, 105, 100];
        let lit_port: [u8; 4] = [112, 111, 114, 116];
        pairs.push(
            (copy_bytes(lit_ip.as_slice()), Bencode::BString(self.ip.as_str().as_bytes_vec())),
        );
        pairs.push((copy_bytes(lit_id.as_slice()), Bencode::BString(copy_bytes(self.id.as_slice()))));
        pairs.push((copy_bytes(lit_port.as_slice()), Bencode::BNumber(self.port as i64)));
        proof {
            lemma_bpair_views_len(pairs@);
            assert forall|j: int| 0 <= j < pairs@.len() implies #[trigger] bpair_views(pairs@)[j]
                == (pairs@[j].0@, bview(pairs@[j].1)) by {
                lemma_bpair_views_index(pairs@, j);
            }
            assert(lit_ip@ =~= peer_key_ip());
            assert(lit_id@ =~= peer_key_id());
            assert(lit_port@ =~= peer_key_port());
            assert(bpair_views(pairs@) =~= self.spec_bencode()->Dict_0);
        }
        Bencode::BDict(pairs)
    }
}

/// A peer's dictionary is well-formed: its three keys stand in
/// ascending byte order and its values are in range.
pub proof fn lemma_peer_bencode_wf(p: &Peer)
    ensures
        crate::bencode::bval_wf(p.spec_bencode()),
{
    let d = p.spec_bencode()->Dict_0;
    assert(crate::bencode::lex_lt(peer_key_ip(), peer_key_id()));
    assert(crate::bencode::lex_lt(peer_key_ip(), peer_key_port()));
    assert(crate::bencode::lex_lt(peer_key_id(), peer_key_port())) by {
        reveal_with_fuel(crate::bencode::lex_lt, 3);
    }
    assert forall|i: int, j: int| 0 <= i < j < d.len() implies crate::bencode::lex_lt(
        (#[trigger] d[i]).0,
        (#[trigger] d[j]).0,
    ) by {
    }
    assert forall|i: int| 0 <= i < d.len() implies crate::bencode::bval_wf(
        (#[trigger] d[i]).1,
    ) by {
    }
}

} // verus!
