//! The tracker's announce endpoint: reading a peer record out of the
//! query parameters and answering with the swarm's peers and tallies.

use vstd::prelude::*;
use vstd::string::{StrSliceExecFns, StringExecFns, StringSliceAdditionalSpecFns};
use vstd::utf8::encode_utf8;
use crate::bencode::{
    BValue, Bencode, ToBencode, bpair_views, bview, bviews, lemma_bpair_views_index,
    lemma_bpair_views_len, lemma_bviews_index, lemma_bviews_len,
};
use crate::byte_util::copy_bytes;
use crate::http::{get_param, lemma_lookup_at, lemma_lookup_none, lookup_param, string_eq};
use crate::numerals::{lemma_digits_val_nonneg, parse_i64, parse_int, parse_u64, sign_magnitude};
use crate::swarm::ActivePeers;
use crate::tracker_peer::{Peer, PeerEvent, PeerStatus};
use crate::tracker_status::{AtomicTrackerStatus, find_swarm, reply_of, swarm_announced};
use crate::url_encoder::{decode, is_percent_wf_ascii};

verus! {

/// The ways an announce query can be rejected.
#[derive(Debug)]
pub enum AnnounceRequestError {
    InvalidInfoHash,
    InvalidPeerId,
    InvalidPort,
    InvalidUploaded,
    InvalidDownloaded,
    InvalidLeft,
    InvalidIp,
    InvalidNumwant,
    InvalidKey,
    InvalidTrackerId,
    InvalidEvent,
}

impl AnnounceRequestError {
    /// The failure reason the tracker reports for this rejection.
    pub fn to_string(&self) -> (r: String)
        ensures
            self is InvalidInfoHash ==> r@ == "Invalid info_hash"@,
            self is InvalidPeerId ==> r@ == "Invalid peer_id"@,
            self is InvalidPort ==> r@ == "Invalid port"@,
            self is InvalidUploaded ==> r@ == "Invalid uploaded"@,
            self is InvalidDownloaded ==> r@ == "Invalid downloaded"@,
            self is InvalidLeft ==> r@ == "Invalid left"@,
            self is InvalidIp ==> r@ == "Invalid ip"@,
            self is InvalidNumwant ==> r@ == "Invalid numwant"@,
            self is InvalidKey ==> r@ == "Invalid key"@,
            self is InvalidTrackerId ==> r@ == "Invalid tracker_id"@,
            self is InvalidEvent ==> r@ == "Invalid event"@,
    {
        match self {
            AnnounceRequestError::InvalidInfoHash => String::from_str("Invalid info_hash"),
            AnnounceRequestError::InvalidPeerId => String::from_str("Invalid peer_id"),
            AnnounceRequestError::InvalidPort => String::from_str("Invalid port"),
            AnnounceRequestError::InvalidUploaded => String::from_str("Invalid uploaded"),
            AnnounceRequestError::InvalidDownloaded => String::from_str("Invalid downloaded"),
            AnnounceRequestError::InvalidLeft => String::from_str("Invalid left"),
            AnnounceRequestError::InvalidIp => String::from_str("Invalid ip"),
            AnnounceRequestError::InvalidNumwant => String::from_str("Invalid numwant"),
            AnnounceRequestError::InvalidKey => String::from_str("Invalid key"),
            AnnounceRequestError::InvalidTrackerId => String::from_str("Invalid tracker_id"),
            AnnounceRequestError::InvalidEvent => String::from_str("Invalid event"),
        }
    }
}

/// An announce query, normalized.
#[derive(Debug)]
pub struct AnnounceRequest {
    pub info_hash: [u8; 20],
    pub peer_id: [u8; 20],
    pub port: u16,
    pub uploaded: u64,
    pub downloaded: u64,
    pub left: u64,
    pub event: Option<PeerEvent>,
    pub ip: Option<String>,
    pub key: Option<String>,
    pub numwant: u32,
}

/// The port parameter parses as a number within `u16`.
pub open spec fn spec_port_ok(ps: Seq<(String, String)>) -> bool {
    match lookup_param(ps, "port"@) {
        Some(v) => parse_int(encode_utf8(v)) matches Some(n) && 0 <= n <= u16::MAX,
        None => false,
    }
}

pub open spec fn spec_port_val(ps: Seq<(String, String)>) -> int {
    parse_int(encode_utf8(lookup_param(ps, "port"@)->Some_0))->Some_0
}

/// The byte-count parameter is present, unsigned, and parses.
pub open spec fn spec_u64_field_ok(ps: Seq<(String, String)>, key: Seq<char>) -> bool {
    match lookup_param(ps, key) {
        Some(v) => {
            let b = encode_utf8(v);
            b.len() > 0 && b[0] != 43 && b[0] != 45 && parse_int(b) is Some
        },
        None => false,
    }
}

pub open spec fn spec_u64_field_val(ps: Seq<(String, String)>, key: Seq<char>) -> int {
    parse_int(encode_utf8(lookup_param(ps, key)->Some_0))->Some_0
}

/// The event parameter, when given, names a known event.
pub open spec fn spec_event_ok(ps: Seq<(String, String)>) -> bool {
    match lookup_param(ps, "event"@) {
        Some(v) => v == "started"@ || v == "stopped"@ || v == "completed"@,
        None => true,
    }
}

/// The numwant parameter, when given, parses as a number within `u32`.
pub open spec fn spec_numwant_ok(ps: Seq<(String, String)>) -> bool {
    match lookup_param(ps, "numwant"@) {
        Some(v) => parse_int(encode_utf8(v)) matches Some(n) && 0 <= n <= u32::MAX,
        None => true,
    }
}

pub open spec fn spec_numwant_val(ps: Seq<(String, String)>) -> int {
    match lookup_param(ps, "numwant"@) {
        Some(v) => parse_int(encode_utf8(v))->Some_0,
        None => 50,
    }
}

/// An announce query is accepted exactly when every field checks out.
pub open spec fn announce_request_ok(ps: Seq<(String, String)>) -> bool {
    &&& spec_identity(ps, "info_hash"@) is Some
    &&& spec_identity(ps, "peer_id"@) is Some
    &&& spec_port_ok(ps)
    &&& spec_u64_field_ok(ps, "uploaded"@)
    &&& spec_u64_field_ok(ps, "downloaded"@)
    &&& spec_u64_field_ok(ps, "left"@)
    &&& spec_event_ok(ps)
    &&& spec_numwant_ok(ps)
}

/// Which rejection a bad query draws: the first field that fails, in
/// the order the query is read.
pub open spec fn spec_announce_error(ps: Seq<(String, String)>) -> AnnounceRequestError {
    if !(spec_identity(ps, "info_hash"@) is Some) {
        AnnounceRequestError::InvalidInfoHash
    } else if !(spec_identity(ps, "peer_id"@) is Some) {
        AnnounceRequestError::InvalidPeerId
    } else if !spec_port_ok(ps) {
        AnnounceRequestError::InvalidPort
    } else if !spec_u64_field_ok(ps, "uploaded"@) {
        AnnounceRequestError::InvalidUploaded
    } else if !spec_u64_field_ok(ps, "downloaded"@) {
        AnnounceRequestError::InvalidDownloaded
    } else if !spec_u64_field_ok(ps, "left"@) {
        AnnounceRequestError::InvalidLeft
    } else if !spec_event_ok(ps) {
        AnnounceRequestError::InvalidEvent
    } else {
        AnnounceRequestError::InvalidNumwant
    }
}

/// The failure reason a bad query is answered with.
pub open spec fn spec_failure_text(ps: Seq<(String, String)>) -> Seq<char> {
    match spec_announce_error(ps) {
        AnnounceRequestError::InvalidInfoHash => "Invalid info_hash"@,
        AnnounceRequestError::InvalidPeerId => "Invalid peer_id"@,
        AnnounceRequestError::InvalidPort => "Invalid port"@,
        AnnounceRequestError::InvalidUploaded => "Invalid uploaded"@,
        AnnounceRequestError::InvalidDownloaded => "Invalid downloaded"@,
        AnnounceRequestError::InvalidLeft => "Invalid left"@,
        AnnounceRequestError::InvalidIp => "Invalid ip"@,
        AnnounceRequestError::InvalidNumwant => "Invalid numwant"@,
        AnnounceRequestError::InvalidKey => "Invalid key"@,
        AnnounceRequestError::InvalidTrackerId => "Invalid tracker_id"@,
        AnnounceRequestError::InvalidEvent => "Invalid event"@,
    }
}

impl AnnounceRequest {
    /// Reads an announce query out of the parameter table. The identity
    /// and peer id are percent-encoded 20-byte values; the numeric
    /// fields must parse; the event, ip, key and numwant are optional,
    /// with up to 50 peers handed out by default.
    pub fn new_from(params: &Vec<(String, String)>) -> (r: Result<
        AnnounceRequest,
        AnnounceRequestError,
    >)
        ensures
            r is Ok <==> announce_request_ok(params@),
            r matches Err(e) ==> e == spec_announce_error(params@),
            r matches Ok(a) ==> {
                &&& spec_identity(params@, "info_hash"@) == Some(a.info_hash@)
                &&& spec_identity(params@, "peer_id"@) == Some(a.peer_id@)
                &&& a.info_hash@.len() == 20
                &&& a.peer_id@.len() == 20
                &&& a.port as int == spec_port_val(params@)
                &&& a.uploaded as int == spec_u64_field_val(params@, "uploaded"@)
                &&& a.downloaded as int == spec_u64_field_val(params@, "downloaded"@)
                &&& a.left as int == spec_u64_field_val(params@, "left"@)
                &&& a.numwant as int == spec_numwant_val(params@)
                &&& (lookup_param(params@, "ip"@) matches Some(v) ==> (a.ip matches Some(s) && s@
                    == v))
                &&& (lookup_param(params@, "ip"@) is None ==> a.ip is None)
                &&& (lookup_param(params@, "port"@) matches Some(v) && (parse_int(
                    encode_utf8(v),
                ) matches Some(n) && a.port == n))
                &&& (lookup_param(params@, "uploaded"@) matches Some(v) && parse_int(
                    encode_utf8(v),
                ) == Some(a.uploaded as int))
                &&& (lookup_param(params@, "downloaded"@) matches Some(v) && parse_int(
                    encode_utf8(v),
                ) == Some(a.downloaded as int))
                &&& (lookup_param(params@, "left"@) matches Some(v) && parse_int(encode_utf8(v))
                    == Some(a.left as int))
                &&& (lookup_param(params@, "event"@) is None ==> a.event is None)
                &&& (lookup_param(params@, "event"@) matches Some(v) ==> (a.event is Some && (
                a.event == Some(PeerEvent::Started) <==> v == "started"@) && (a.event == Some(
                    PeerEvent::Stopped,
                ) <==> v == "stopped"@) && (a.event == Some(PeerEvent::Completed) <==> v
                    == "completed"@)))
                &&& (lookup_param(params@, "numwant"@) is None ==> a.numwant == 50)
            },
    {
        let info_hash = match read_identity(params, "info_hash") {
            Some(h) => h,
            None => {
                return Err(AnnounceRequestError::InvalidInfoHash);
            },
        };
        let peer_id = match read_identity(params, "peer_id") {
            Some(h) => h,
            None => {
                return Err(AnnounceRequestError::InvalidPeerId);
            },
        };
        let port: u16 = match get_param(params, "port") {
            Some(v) => {
                proof {
                    let i = choose|i: int|
                        0 <= i < params@.len() && #[trigger] params@[i].0@ == "port"@ && v@
                            == params@[i].1@ && (forall|j: int|
                            i < j < params@.len() ==> params@[j].0@ != "port"@);
                    lemma_lookup_at(params@, "port"@, i);
                }
                match parse_i64(v.as_str().as_bytes()) {
                    Some(n) => if 0 <= n && n <= u16::MAX as i64 {
                        n as u16
                    } else {
                        return Err(AnnounceRequestError::InvalidPort);
                    },
                    None => {
                        return Err(AnnounceRequestError::InvalidPort);
                    },
                }
            },
            None => {
                proof {
                    lemma_lookup_none(params@, "port"@);
                }
                return Err(AnnounceRequestError::InvalidPort);
            },
        };
        let uploaded: u64 = match get_param(params, "uploaded") {
            Some(v) => {
                proof {
                    let i = choose|i: int|
                        0 <= i < params@.len() && #[trigger] params@[i].0@ == "uploaded"@ && v@
                            == params@[i].1@ && (forall|j: int|
                            i < j < params@.len() ==> params@[j].0@ != "uploaded"@);
                    lemma_lookup_at(params@, "uploaded"@, i);
                }
                match parse_u64(v.as_str().as_bytes()) {
                    Some(n) => n,
                    None => {
                        proof {
                            if spec_u64_field_ok(params@, "uploaded"@) {
                                let b = encode_utf8(v@);
                                assert(sign_magnitude(b) == b);
                                lemma_digits_val_nonneg(sign_magnitude(b));
                            }
                        }
                        return Err(AnnounceRequestError::InvalidUploaded);
                    },
                }
            },
            None => {
                proof {
                    lemma_lookup_none(params@, "uploaded"@);
                }
                return Err(AnnounceRequestError::InvalidUploaded);
            },
        };
        let downloaded: u64 = match get_param(params, "downloaded") {
            Some(v) => {
                proof {
                    let i = choose|i: int|
                        0 <= i < params@.len() && #[trigger] params@[i].0@ == "downloaded"@ && v@
                            == params@[i].1@ && (forall|j: int|
                            i < j < params@.len() ==> params@[j].0@ != "downloaded"@);
                    lemma_lookup_at(params@, "downloaded"@, i);
                }
                match parse_u64(v.as_str().as_bytes()) {
                    Some(n) => n,
                    None => {
                        proof {
                            if spec_u64_field_ok(params@, "downloaded"@) {
                                let b = encode_utf8(v@);
                                assert(sign_magnitude(b) == b);
                                lemma_digits_val_nonneg(sign_magnitude(b));
                            }
                        }
                        return Err(AnnounceRequestError::InvalidDownloaded);
                    },
                }
            },
            None => {
                proof {
                    lemma_lookup_none(params@, "downloaded"@);
                }
                return Err(AnnounceRequestError::InvalidDownloaded);
            },
        };
        let left: u64 = match get_param(params, "left") {
            Some(v) => {
                proof {
                    let i = choose|i: int|
                        0 <= i < params@.len() && #[trigger] params@[i].0@ == "left"@ && v@
                            == params@[i].1@ && (forall|j: int|
                            i < j < params@.len() ==> params@[j].0@ != "left"@);
                    lemma_lookup_at(params@, "left"@, i);
                }
                match parse_u64(v.as_str().as_bytes()) {
                    Some(n) => n,
                    None => {
                        proof {
                            if spec_u64_field_ok(params@, "left"@) {
                                let b = encode_utf8(v@);
                                assert(sign_magnitude(b) == b);
                                lemma_digits_val_nonneg(sign_magnitude(b));
                            }
                        }
                        return Err(AnnounceRequestError::InvalidLeft);
                    },
                }
            },
            None => {
                proof {
                    lemma_lookup_none(params@, "left"@);
                }
                return Err(AnnounceRequestError::InvalidLeft);
            },
        };
        let event: Option<PeerEvent> = match get_param(params, "event") {
            Some(v) => {
                proof {
                    let i = choose|i: int|
                        0 <= i < params@.len() && #[trigger] params@[i].0@ == "event"@ && v@
                            == params@[i].1@ && (forall|j: int|
                            i < j < params@.len() ==> params@[j].0@ != "event"@);
                    lemma_lookup_at(params@, "event"@, i);
                }
                match PeerEvent::from_str(v.as_str()) {
                    Ok(e) => Some(e),
                    Err(_) => {
                        return Err(AnnounceRequestError::InvalidEvent);
                    },
                }
            },
            None => {
                proof {
                    lemma_lookup_none(params@, "event"@);
                }
                None
            },
        };
        let ip: Option<String> = match get_param(params, "ip") {
            Some(v) => {
                proof {
                    let i = choose|i: int|
                        0 <= i < params@.len() && #[trigger] params@[i].0@ == "ip"@ && v@
                            == params@[i].1@ && (forall|j: int|
                            i < j < params@.len() ==> params@[j].0@ != "ip"@);
                    lemma_lookup_at(params@, "ip"@, i);
                }
                Some(v.clone())
            },
            None => {
                proof {
                    lemma_lookup_none(params@, "ip"@);
                }
                None
            },
        };
        let key: Option<String> = match get_param(params, "key") {
            Some(v) => Some(v.clone()),
            None => None,
        };
        let numwant: u32 = match get_param(params, "numwant") {
            Some(v) => {
                proof {
                    let i = choose|i: int|
                        0 <= i < params@.len() && #[trigger] params@[i].0@ == "numwant"@ && v@
                            == params@[i].1@ && (forall|j: int|
                            i < j < params@.len() ==> params@[j].0@ != "numwant"@);
                    lemma_lookup_at(params@, "numwant"@, i);
                }
                match parse_i64(v.as_str().as_bytes()) {
                    Some(n) => if 0 <= n && n <= u32::MAX as i64 {
                        n as u32
                    } else {
                        return Err(AnnounceRequestError::InvalidNumwant);
                    },
                    None => {
                        return Err(AnnounceRequestError::InvalidNumwant);
                    },
                }
            },
            None => {
                proof {
                    lemma_lookup_none(params@, "numwant"@);
                }
                50
            },
        };
        Ok(AnnounceRequest {
            info_hash,
            peer_id,
            port,
            uploaded,
            downloaded,
            left,
            event,
            ip,
            key,
            numwant,
        })
    }
}

/// The 20 bytes a percent-encoded identity parameter denotes: the
/// parameter's characters are percent-decoded to hexadecimal, and the
/// hexadecimal to bytes, which must number exactly twenty.
pub open spec fn spec_identity(ps: Seq<(String, String)>, key: Seq<char>) -> Option<Seq<u8>> {
    match lookup_param(ps, key) {
        None => None,
        Some(v) => if crate::url_encoder::percent_wf(v) && (forall|i: int|
            0 <= i < v.len() ==> ((#[trigger] v[i]) as u32) < 128) {
            match crate::torrent::spec_hex_decode(crate::url_encoder::spec_percent_decode(v)) {
                Some(bs) => if bs.len() == 20 {
                    Some(bs)
                } else {
                    None
                },
                None => None,
            }
        } else {
            None
        },
    }
}

/// Reads a percent-encoded 20-byte identity out of a parameter.
fn read_identity(params: &Vec<(String, String)>, key: &str) -> (r: Option<[u8; 20]>)
    ensures
        r matches Some(h) ==> spec_identity(params@, key@) == Some(h@),
        r is None ==> spec_identity(params@, key@) is None,
{
    let raw = match get_param(params, key) {
        Some(v) => v,
        None => {
            proof {
                lemma_lookup_none(params@, key@);
            }
            return None;
        },
    };
    proof {
        let i = choose|i: int|
            0 <= i < params@.len() && #[trigger] params@[i].0@ == key@ && raw@ == params@[i].1@
                && (forall|j: int| i < j < params@.len() ==> params@[j].0@ != key@);
        lemma_lookup_at(params@, key@, i);
    }
    if !is_percent_wf_ascii(raw.as_str()) {
        return None;
    }
    let hex = decode(raw.as_str());
    let bytes = match hex_to_bytes(hex.as_str()) {
        Some(b) => b,
        None => {
            return None;
        },
    };
    if bytes.len() != 20 {
        return None;
    }
    let mut out: [u8; 20] = [0; 20];
    let mut i: usize = 0;
    while i < 20
        invariant
            i <= 20,
            bytes@.len() == 20,
            out@.len() == 20,
            forall|j: int| 0 <= j < i ==> out@[j] == bytes@[j],
        decreases 20 - i,
    {
        out[i] = bytes[i];
        i = i + 1;
    }
    proof {
        assert(out@ =~= bytes@);
    }
    Some(out)
}

/// Parses a hexadecimal character string into bytes; any non-digit or
/// an odd length yields nothing.
fn hex_to_bytes(s: &str) -> (r: Option<Vec<u8>>)
    ensures
        r matches Some(bytes) ==> crate::torrent::spec_hex_decode(s@) == Some(bytes@),
        r is None ==> crate::torrent::spec_hex_decode(s@) is None,
{
    crate::torrent::hex_str_to_bytes(s)
}

/// The peer a valid announce describes: addressed by the query's `ip`
/// when given, else by the connection's, stamped with the current time.
pub fn peer_from_request(request: AnnounceRequest, peer_ip: String) -> (r: Peer)
    ensures
        r.id@ == request.peer_id@,
        r.ip@ == (match request.ip {
            Some(ip) => ip@,
            None => peer_ip@,
        }),
        r.port == request.port,
        r.status.uploaded == request.uploaded,
        r.status.downloaded == request.downloaded,
        r.status.left == request.left,
        r.status.event == request.event,
{
    let id: [u8; 20] = request.peer_id;
    let ip = match request.ip {
        Some(ip) => ip,
        None => peer_ip,
    };
    let status = PeerStatus::new(request.uploaded, request.downloaded, request.left, request.event);
    Peer::new(id, ip, request.port, request.key, status)
}

pub open spec fn resp_key_complete() -> Seq<u8> {
    seq![99u8, 111u8, 109u8, 112u8, 108u8, 101u8, 116u8, 101u8]
}

pub open spec fn resp_key_incomplete() -> Seq<u8> {
    seq![105u8, 110u8, 99u8, 111u8, 109u8, 112u8, 108u8, 101u8, 116u8, 101u8]
}

pub open spec fn resp_key_interval() -> Seq<u8> {
    seq![105u8, 110u8, 116u8, 101u8, 114u8, 118u8, 97u8, 108u8]
}

pub open spec fn resp_key_peers() -> Seq<u8> {
    seq![112u8, 101u8, 101u8, 114u8, 115u8]
}

/// The announce reply: the tallies and the peer list, or the failure
/// reason when the query was rejected.
#[derive(Debug)]
pub struct AnnounceResponse {
    pub failure_reason: Option<String>,
    pub warning_message: Option<String>,
    pub interval: u32,
    pub min_interval: Option<u32>,
    pub tracker_id: Option<String>,
    pub complete: u32,
    pub incomplete: u32,
    pub peers: Vec<Peer>,
}

/// `p` is the peer an accepted query describes, and the registry and
/// reply reflect announcing it: its id, address and reported standing
/// come from the query (the address from the connection when the query
/// gives none), the swarm keyed by the query's identity is the old one
/// with `p` announced — created fresh with the default timeout when
/// absent — every other swarm is untouched, and the reply carries that
/// swarm's tallies and up to `numwant` of its members.
pub open spec fn announce_witness(
    p: Peer,
    ps: Seq<(String, String)>,
    peer_ip: Seq<char>,
    pre: Seq<([u8; 20], crate::swarm::Swarm)>,
    post: Seq<([u8; 20], crate::swarm::Swarm)>,
    r: &AnnounceResponse,
) -> bool {
    &&& p.id@ == spec_identity(ps, "peer_id"@)->Some_0
    &&& p.ip@ == (match lookup_param(ps, "ip"@) {
        Some(v) => v,
        None => peer_ip,
    })
    &&& p.port as int == spec_port_val(ps)
    &&& p.status.uploaded as int == spec_u64_field_val(ps, "uploaded"@)
    &&& p.status.downloaded as int == spec_u64_field_val(ps, "downloaded"@)
    &&& p.status.left as int == spec_u64_field_val(ps, "left"@)
    &&& (lookup_param(ps, "event"@) is None ==> p.status.event is None)
    &&& (lookup_param(ps, "event"@) matches Some(v) ==> (p.status.event is Some && (p.status.event
        == Some(PeerEvent::Started) <==> v == "started"@) && (p.status.event == Some(
        PeerEvent::Stopped,
    ) <==> v == "stopped"@) && (p.status.event == Some(PeerEvent::Completed) <==> v
        == "completed"@)))
    &&& p.id@.len() == 20
    &&& (match find_swarm(pre, spec_identity(ps, "info_hash"@)->Some_0) {
        Some(i) => post.len() == pre.len() && (forall|j: int|
            0 <= j < pre.len() && j != i ==> #[trigger] post[j] == pre[j]) && post[i].0 == pre[i].0
            && swarm_announced(pre[i].1, post[i].1, p) && reply_of(
            post[i].1,
            ActivePeers { peers: r.peers, seeders: r.complete, leechers: r.incomplete },
            spec_numwant_val(ps) as u32,
        ),
        None => post.len() == pre.len() + 1 && (forall|j: int|
            0 <= j < pre.len() ==> #[trigger] post[j] == pre[j]) && post.last().0@ == spec_identity(
            ps,
            "info_hash"@,
        )->Some_0 && post.last().1.peer_timeout == crate::tracker_status::PEER_TIMEOUT_SECONDS
            && post.last().1.peers@ == seq![(p.id, p)] && reply_of(
            post.last().1,
            ActivePeers { peers: r.peers, seeders: r.complete, leechers: r.incomplete },
            spec_numwant_val(ps) as u32,
        ),
    })
}

/// The reply dictionary that `to_bencode_reply` builds for a response.
pub open spec fn spec_reply_bval(resp: AnnounceResponse) -> BValue {
    BValue::Dict(
        seq![
            (resp_key_complete(), BValue::Int(resp.complete as int)),
            (resp_key_incomplete(), BValue::Int(resp.incomplete as int)),
            (resp_key_interval(), BValue::Int(resp.interval as int)),
            (
                resp_key_peers(),
                BValue::List(Seq::new(resp.peers@.len(), |i: int| resp.peers@[i].spec_bencode())),
            ),
        ],
    )
}

/// An accepted announce was applied: some peer with the query's
/// identity and standing was recorded, and the reply reports its swarm.
pub open spec fn spec_announce_applied(
    ps: Seq<(String, String)>,
    peer_ip: Seq<char>,
    pre: Seq<([u8; 20], crate::swarm::Swarm)>,
    post: Seq<([u8; 20], crate::swarm::Swarm)>,
    r: &AnnounceResponse,
) -> bool {
    exists|p: Peer| #[trigger] announce_witness(p, ps, peer_ip, pre, post, r)
}

impl AnnounceResponse {
    /// Answers one announce: a rejected query yields a failure reply;
    /// an accepted one records the peer in its swarm and yields that
    /// swarm's peers and tallies.
    pub fn from(
        query_params: &Vec<(String, String)>,
        tracker_status: &mut AtomicTrackerStatus,
        peer_ip: String,
    ) -> (r: AnnounceResponse)
        requires
            old(tracker_status).wf(),
            forall|i: int|
                0 <= i < old(tracker_status).torrent_swarms@.len()
                    ==> (#[trigger] old(tracker_status).torrent_swarms@[i].1).peers@.len()
                    < u32::MAX,
        ensures
            final(tracker_status).wf(),
            r.failure_reason is Some <==> !announce_request_ok(query_params@),
            !announce_request_ok(query_params@) ==> (r.failure_reason matches Some(f) && f@
                == spec_failure_text(query_params@) && *final(tracker_status) == *old(
                tracker_status,
            ) && r.complete == 0 && r.incomplete == 0 && r.peers@.len() == 0),
            announce_request_ok(query_params@) ==> spec_announce_applied(
                query_params@,
                peer_ip@,
                old(tracker_status).torrent_swarms@,
                final(tracker_status).torrent_swarms@,
                &r,
            ),
    {
        let announce_request = match AnnounceRequest::new_from(query_params) {
            Ok(a) => a,
            Err(e) => {
                return AnnounceResponse::create_error_response(e.to_string());
            },
        };
        let numwant = announce_request.numwant;
        let info_hash: [u8; 20] = announce_request.info_hash;
        let peer = peer_from_request(announce_request, peer_ip);
        let ghost p = peer;
        let active_peers = tracker_status.incoming_peer(info_hash, peer, numwant);
        let ghost wanted = numwant;
        let r = AnnounceResponse::create_success_response(active_peers);
        proof {
            assert(spec_announce_applied(
                query_params@,
                peer_ip@,
                old(tracker_status).torrent_swarms@,
                tracker_status.torrent_swarms@,
                &r,
            )) by {
                assert(announce_witness(
                    p,
                    query_params@,
                    peer_ip@,
                    old(tracker_status).torrent_swarms@,
                    tracker_status.torrent_swarms@,
                    &r,
                ));
            }
        }
        r
    }

    /// A reply that carries only the failure reason.
    pub fn create_error_response(failure_reason: String) -> (r: AnnounceResponse)
        ensures
            r.failure_reason matches Some(f) && f@ == failure_reason@,
            r.complete == 0,
            r.incomplete == 0,
            r.peers@.len() == 0,
    {
        AnnounceResponse {
            failure_reason: Some(failure_reason),
            warning_message: None,
            interval: 0,
            min_interval: None,
            tracker_id: None,
            complete: 0,
            incomplete: 0,
            peers: Vec::new(),
        }
    }

    /// A reply carrying the swarm's peers and tallies.
    pub fn create_success_response(active_peers: ActivePeers) -> (r: AnnounceResponse)
        ensures
            r.failure_reason is None,
            r.complete == active_peers.seeders,
            r.incomplete == active_peers.leechers,
            r.peers@ == active_peers.peers@,
    {
        AnnounceResponse {
            failure_reason: None,
            warning_message: None,
            interval: 0,
            min_interval: None,
            tracker_id: None,
            complete: active_peers.seeders,
            incomplete: active_peers.leechers,
            peers: active_peers.peers,
        }
    }

    /// The bencoded dictionary of a successful reply: complete,
    /// incomplete, interval, and the peer list, keys in sorted order.
    pub fn to_bencode_reply(&self) -> (r: Bencode)
        ensures
            bview(r) matches BValue::Dict(entries) && entries.len() == 4 && entries[0].0
                == resp_key_complete() && entries[0].1 == BValue::Int(self.complete as int)
                && entries[1].0 == resp_key_incomplete() && entries[1].1 == BValue::Int(
                self.incomplete as int,
            ) && entries[2].0 == resp_key_interval() && entries[2].1 == BValue::Int(
                self.interval as int,
            ) && entries[3].0 == resp_key_peers() && (entries[3].1 matches BValue::List(items)
                && items == Seq::new(self.peers@.len(), |i: int| self.peers@[i].spec_bencode())),
    {
        let lit_complete: [u8; 8] = [99, 111, 109, 112, 108, 101, 116, 101];
        let lit_incomplete: [u8; 10] = [105, 110, 99, 111, 109, 112, 108, 101, 116, 101];
        let lit_interval: [u8; 8] = [105, 110, 116, 101, 114, 118, 97, 108];
        let lit_peers: [u8; 5] = [112, 101, 101, 114, 115];
        let mut peer_items: Vec<Bencode> = Vec::new();
        let mut i: usize = 0;
        while i < self.peers.len()
            invariant
                i <= self.peers@.len(),
                peer_items@.len() == i,
                bviews(peer_items@) == Seq::new(
                    i as nat,
                    |j: int| self.peers@[j].spec_bencode(),
                ),
            decreases self.peers@.len() - i,
        {
            let item = self.peers[i].to_bencode();
            let ghost prev = peer_items@;
            peer_items.push(item);
            proof {
                crate::bencode::lemma_bviews_push_general(prev, item);
                assert(bviews(peer_items@) =~= Seq::new(
                    (i + 1) as nat,
                    |j: int| self.peers@[j].spec_bencode(),
                ));
            }
            i = i + 1;
        }
        let mut pairs: Vec<(Vec<u8>, Bencode)> = Vec::new();
        pairs.push(
            (copy_bytes(lit_complete.as_slice()), Bencode::BNumber(self.complete as i64)),
        );
        pairs.push(
            (copy_bytes(lit_incomplete.as_slice()), Bencode::BNumber(self.incomplete as i64)),
        );
        pairs.push(
            (copy_bytes(lit_interval.as_slice()), Bencode::BNumber(self.interval as i64)),
        );
        pairs.push((copy_bytes(lit_peers.as_slice()), Bencode::BList(peer_items)));
        proof {
            lemma_bpair_views_len(pairs@);
            assert forall|j: int| 0 <= j < pairs@.len() implies #[trigger] bpair_views(pairs@)[j]
                == (pairs@[j].0@, bview(pairs@[j].1)) by {
                lemma_bpair_views_index(pairs@, j);
            }
            lemma_bviews_len(peer_items@);
            assert(lit_complete@ =~= resp_key_complete());
            assert(lit_incomplete@ =~= resp_key_incomplete());
            assert(lit_interval@ =~= resp_key_interval());
            assert(lit_peers@ =~= resp_key_peers());
        }
        Bencode::BDict(pairs)
    }
}

/// The successful-reply dictionary is well-formed: its four keys stand
/// in ascending byte order, its tallies are in range, and each peer
/// item is itself a well-formed dictionary.
pub proof fn lemma_announce_reply_wf(resp: &AnnounceResponse, reply: &Bencode)
    requires
        bview(*reply) matches BValue::Dict(entries) && entries.len() == 4 && entries[0].0
            == resp_key_complete() && entries[0].1 == BValue::Int(resp.complete as int)
            && entries[1].0 == resp_key_incomplete() && entries[1].1 == BValue::Int(
            resp.incomplete as int,
        ) && entries[2].0 == resp_key_interval() && entries[2].1 == BValue::Int(
            resp.interval as int,
        ) && entries[3].0 == resp_key_peers() && (entries[3].1 matches BValue::List(items)
            && items == Seq::new(resp.peers@.len(), |i: int| resp.peers@[i].spec_bencode())),
    ensures
        crate::bencode::bval_wf(bview(*reply)),
{
    let entries = bview(*reply)->Dict_0;
    assert(crate::bencode::lex_lt(resp_key_complete(), resp_key_incomplete()));
    assert(crate::bencode::lex_lt(resp_key_complete(), resp_key_interval()));
    assert(crate::bencode::lex_lt(resp_key_complete(), resp_key_peers()));
    assert(crate::bencode::lex_lt(resp_key_incomplete(), resp_key_interval())) by {
        reveal_with_fuel(crate::bencode::lex_lt, 4);
    }
    assert(crate::bencode::lex_lt(resp_key_incomplete(), resp_key_peers()));
    assert(crate::bencode::lex_lt(resp_key_interval(), resp_key_peers()));
    assert forall|i: int, j: int| 0 <= i < j < entries.len() implies crate::bencode::lex_lt(
        (#[trigger] entries[i]).0,
        (#[trigger] entries[j]).0,
    ) by {
    }
    let items = entries[3].1->List_0;
    assert forall|i: int| 0 <= i < items.len() implies crate::bencode::bval_wf(
        #[trigger] items[i],
    ) by {
        crate::tracker_peer::lemma_peer_bencode_wf(&resp.peers@[i]);
    }
    assert forall|i: int| 0 <= i < entries.len() implies crate::bencode::bval_wf(
        (#[trigger] entries[i]).1,
    ) by {
    }
}

} // verus!
