//! Routing of a tracker HTTP request to a reply, and the framing of the
//! HTTP response. Reading from and writing to the connection is the
//! caller's business.

use vstd::prelude::*;
use vstd::string::{StrSliceExecFns, StringExecFns, StringSliceAdditionalSpecFns};
use vstd::utf8::encode_utf8;
use crate::announce::{
    AnnounceResponse, announce_request_ok, lemma_announce_reply_wf, spec_announce_applied,
    spec_failure_text, spec_reply_bval,
};
use crate::bencode::{BValue, Bencode, ToBencode, spec_encode};
use crate::byte_util::push_bytes;
use crate::http::{Http, HttpStatus, string_eq};
use crate::numerals::nat_digits;
use crate::stats::{StatsResponse, StatsUpdater, spec_since_hours, stats_reply_ok};
use crate::tracker_status::AtomicTrackerStatus;

verus! {

#[derive(Debug)]
pub enum RequestHandlerError {
    InvalidEndpointError,
    ParseHttpError,
    GettingPeerIpError,
    FromUtfError,
    BadRequest,
    WritingResponseError,
    InvalidQueryParamError,
    InvalidStatsError,
}

/// What a routed request resolves to. A stats reply still needs its
/// JSON rendering, which the connection's owner supplies.
#[derive(Debug)]
pub enum RequestOutcome {
    AnnounceReply(Vec<u8>),
    StatsReply(StatsResponse),
    BadEndpoint,
}

/// Routes a parsed GET request: `/announce` records the peer and
/// returns the bencoded reply bytes; `/stats` returns the snapshot
/// window; anything else is rejected.
pub fn route_request(
    http: &Http,
    tracker_status: &mut AtomicTrackerStatus,
    stats_updater: &StatsUpdater,
    peer_ip: String,
) -> (r: RequestOutcome)
    requires
        old(tracker_status).wf(),
        forall|i: int|
            0 <= i < old(tracker_status).torrent_swarms@.len()
                ==> (#[trigger] old(tracker_status).torrent_swarms@[i].1).peers@.len() < u32::MAX,
        stats_updater.bucket_seconds > 0,
    ensures
        final(tracker_status).wf(),
        http.endpoint@ == "/announce"@ ==> (r matches RequestOutcome::AnnounceReply(body) && (
        !announce_request_ok(http.params@) ==> *final(tracker_status) == *old(tracker_status)
            && body@ == spec_encode(
            BValue::Str(encode_utf8(spec_failure_text(http.params@))),
        )) && (announce_request_ok(http.params@) ==> exists|resp: AnnounceResponse|
            #[trigger] spec_announce_applied(
                http.params@,
                peer_ip@,
                old(tracker_status).torrent_swarms@,
                final(tracker_status).torrent_swarms@,
                &resp,
            ) && body@ == spec_encode(spec_reply_bval(resp)))),
        http.endpoint@ == "/stats"@ ==> (r is StatsReply || r is BadEndpoint)
            && *final(tracker_status) == *old(tracker_status)
            && (r is StatsReply <==> spec_since_hours(http.params@) is Some)
            && (r matches RequestOutcome::StatsReply(resp) ==> stats_reply_ok(
            http.params@,
            *stats_updater,
            resp,
        )),
        http.endpoint@ != "/announce"@ && http.endpoint@ != "/stats"@ ==> r is BadEndpoint
            && *final(tracker_status) == *old(tracker_status),
{
    proof {
        reveal_strlit("/announce");
        reveal_strlit("/stats");
        assert("/announce"@.len() == 9);
        assert("/stats"@.len() == 6);
        assert("/announce"@ != "/stats"@);
    }
    let announce_lit = String::from_str("/announce");
    let stats_lit = String::from_str("/stats");
    if string_eq(http.endpoint.as_str(), announce_lit.as_str()) {
        let response = AnnounceResponse::from(&http.params, tracker_status, peer_ip);
        let body = match &response.failure_reason {
            Some(failure) => Bencode::encode(failure),
            None => {
                let reply = response.to_bencode_reply();
                proof {
                    lemma_announce_reply_wf(&response, &reply);
                    let entries = crate::bencode::bview(reply)->Dict_0;
                    assert(entries =~= spec_reply_bval(response)->Dict_0);
                    assert(crate::bencode::bview(reply) == spec_reply_bval(response));
                }
                Bencode::encode(&reply)
            },
        };
        proof {
            if announce_request_ok(http.params@) {
                assert(spec_announce_applied(
                    http.params@,
                    peer_ip@,
                    old(tracker_status).torrent_swarms@,
                    tracker_status.torrent_swarms@,
                    &response,
                ));
            }
        }
        RequestOutcome::AnnounceReply(body)
    } else if string_eq(http.endpoint.as_str(), stats_lit.as_str()) {
        match StatsResponse::from(&http.params, stats_updater) {
            Ok(resp) => RequestOutcome::StatsReply(resp),
            Err(_) => RequestOutcome::BadEndpoint,
        }
    } else {
        RequestOutcome::BadEndpoint
    }
}

/// The bytes of an HTTP response: the status line, the open-access
/// header, the content length, a blank line, and the body.
pub open spec fn spec_response_bytes(status_text: Seq<char>, contents: Seq<u8>) -> Seq<u8> {
    encode_utf8("HTTP/1.1 "@) + encode_utf8(status_text) + encode_utf8(
        "\r\nAccess-Control-Allow-Origin: *\r\nContent-Length: "@,
    ) + nat_digits(contents.len() as int) + encode_utf8("\r\n\r\n"@) + contents
}

/// Frames a response body under the given status line.
pub fn create_response(contents: Vec<u8>, status_line: HttpStatus) -> (r: Vec<u8>)
    ensures
        status_line is Okay ==> r@ == spec_response_bytes("200 OK"@, contents@),
        status_line is NotFound ==> r@ == spec_response_bytes("404 NOT FOUND"@, contents@),
        status_line is BadRequest ==> r@ == spec_response_bytes("400 BAD REQUEST"@, contents@),
{
    let ghost cv = contents@;
    let mut out: Vec<u8> = Vec::new();
    let head = String::from_str("HTTP/1.1 ");
    push_bytes(&mut out, head.as_str().as_bytes());
    let status_text = status_line.to_string();
    push_bytes(&mut out, status_text.as_str().as_bytes());
    let mid = String::from_str("\r\nAccess-Control-Allow-Origin: *\r\nContent-Length: ");
    push_bytes(&mut out, mid.as_str().as_bytes());
    let digits = crate::numerals::u64_digits(contents.len() as u64);
    push_bytes(&mut out, digits.as_slice());
    let tail = String::from_str("\r\n\r\n");
    push_bytes(&mut out, tail.as_str().as_bytes());
    push_bytes(&mut out, contents.as_slice());
    proof {
        assert(out@ =~= encode_utf8("HTTP/1.1 "@) + encode_utf8(status_text@) + encode_utf8(
            "\r\nAccess-Control-Allow-Origin: *\r\nContent-Length: "@,
        ) + nat_digits(cv.len() as int) + encode_utf8("\r\n\r\n"@) + cv);
    }
    out
}

} // verus!
