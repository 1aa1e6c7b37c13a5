//! The client's side of tracker HTTP: building the announce request
//! text and cutting the body out of the reply. Opening connections and
//! moving bytes is the caller's business.

use vstd::prelude::*;
use vstd::string::StringExecFns;
use crate::numerals::nat_digit_chars;
use crate::query_params::{QueryParams, spec_query_string};
use crate::url_parser::TrackerUrl;

verus! {

/// Failures of a TLS connection attempt, as the caller reports them.
#[derive(Debug)]
pub enum TlsStreamConnectError {
    FatalError,
    BlockError,
}

/// A tracker request: where to send it and what to ask.
#[derive(Debug)]
pub struct HttpHandler {
    pub tracker_url: TrackerUrl,
    pub query_params: QueryParams,
}

impl HttpHandler {
    pub fn new(tracker_url: TrackerUrl, query_params: QueryParams) -> (r: HttpHandler)
        ensures
            r.tracker_url == tracker_url,
            r.query_params.info_hash@ == query_params.info_hash@,
            r.query_params.client_port == query_params.client_port,
            r.query_params.info_length == query_params.info_length,
            r.query_params.client_peer_id@ == query_params.client_peer_id@,
    {
        HttpHandler { tracker_url, query_params }
    }

    /// The text of the announce GET request: the endpoint with its
    /// query, the host header, a user agent, and the closing blank
    /// line.
    pub fn build_request(&self) -> (r: String)
        ensures
            r@ == "GET /"@ + self.tracker_url.endpoint@ + spec_query_string(
                self.query_params.info_hash@,
                self.query_params.client_port as int,
                self.query_params.info_length as int,
                self.query_params.client_peer_id@,
            ) + " HTTP/1.1\r\nHost: "@ + self.tracker_url.host@
                + "\r\nUser-Agent: LDTorrent/0.1\r\n\r\n"@,
    {
        let mut request = String::new();
        request.append("GET /");
        request.append(self.tracker_url.endpoint.as_str());
        let query = self.query_params.build();
        request.append(query.as_str());
        request.append(" HTTP/1.1\r\nHost: ");
        request.append(self.tracker_url.host.as_str());
        request.append("\r\nUser-Agent: LDTorrent/0.1\r\n\r\n");
        assert(request@ =~= "GET /"@ + self.tracker_url.endpoint@ + spec_query_string(
            self.query_params.info_hash@,
            self.query_params.client_port as int,
            self.query_params.info_length as int,
            self.query_params.client_peer_id@,
        ) + " HTTP/1.1\r\nHost: "@ + self.tracker_url.host@
            + "\r\nUser-Agent: LDTorrent/0.1\r\n\r\n"@);
        request
    }

    /// The body of an HTTP reply: everything after the first blank
    /// line, or the whole reply when no blank line exists.
    pub fn parse_http_response(res: &[u8]) -> (r: Vec<u8>)
        ensures
            (exists|i: int| #[trigger] has_header_end(res@, i)) ==> (exists|i: int|
                #[trigger] has_header_end(res@, i) && r@ == res@.skip(i + 4)),
            !(exists|i: int| #[trigger] has_header_end(res@, i)) ==> r@ == res@,
    {
        let len = res.len();
        let mut i: usize = 0;
        while i < len
            invariant
                i <= len,
                len == res@.len(),
                forall|j: int| 0 <= j < i ==> !has_header_end(res@, j),
            decreases len - i,
        {
            if len - i >= 4 && res[i] == 13 && res[i + 1] == 10 && res[i + 2] == 13 && res[i + 3]
                == 10 {
                let body = crate::byte_util::copy_bytes(&res[i + 4..len]);
                proof {
                    assert(has_header_end(res@, i as int));
                    assert(body@ =~= res@.skip(i + 4));
                }
                return body;
            }
            proof {
                assert(!has_header_end(res@, i as int));
            }
            i = i + 1;
        }
        proof {
            assert forall|j: int| true implies !has_header_end(res@, j) by {
                if 0 <= j < len {
                }
            }
        }
        crate::byte_util::copy_bytes(res)
    }
}

/// Position `i` starts the CRLF-CRLF separator that ends the headers.
pub open spec fn has_header_end(res: Seq<u8>, i: int) -> bool {
    0 <= i && i + 4 <= res.len() && res[i] == 13 && res[i + 1] == 10 && res[i + 2] == 13 && res[i
        + 3] == 10
}

} // verus!
