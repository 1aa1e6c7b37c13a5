//! The percent-encoded announce query string a client sends to its
//! tracker.

use vstd::prelude::*;
use vstd::string::StringExecFns;
use crate::numerals::{int_digit_chars, nat_digit_chars, i64_to_string, u64_to_string};
use crate::url_encoder::{encode, percent_groups};

verus! {

/// The pieces of an announce query.
#[derive(Debug)]
pub struct QueryParams {
    pub info_hash: String,
    pub client_port: u32,
    pub info_length: i64,
    pub client_peer_id: String,
}

/// The query string the given pieces build.
pub open spec fn spec_query_string(
    info_hash: Seq<char>,
    client_port: int,
    info_length: int,
    client_peer_id: Seq<char>,
) -> Seq<char> {
    "?info_hash="@ + percent_groups(info_hash) + "&peer_id="@ + client_peer_id + "&port="@
        + nat_digit_chars(client_port) + "&uploaded=0&downloaded=0&left="@ + int_digit_chars(
        info_length,
    ) + "&event=started"@
}

impl QueryParams {
    pub fn new(info_hash: String, client_port: u32, info_length: i64, client_peer_id: String) -> (r:
        QueryParams)
        ensures
            r.info_hash@ == info_hash@,
            r.client_port == client_port,
            r.info_length == info_length,
            r.client_peer_id@ == client_peer_id@,
    {
        QueryParams { info_hash, client_port, info_length, client_peer_id }
    }

    /// Builds the announce query: the percent-encoded info hash, the
    /// peer id, the port, fresh transfer totals, the length still
    /// wanted, and the started event.
    pub fn build(&self) -> (r: String)
        ensures
            r@ == spec_query_string(
                self.info_hash@,
                self.client_port as int,
                self.info_length as int,
                self.client_peer_id@,
            ),
    {
        let mut out = String::new();
        out.append("?info_hash=");
        let encoded = encode(self.info_hash.as_str());
        out.append(encoded.as_str());
        out.append("&peer_id=");
        out.append(self.client_peer_id.as_str());
        out.append("&port=");
        let port = u64_to_string(self.client_port as u64);
        out.append(port.as_str());
        out.append("&uploaded=0&downloaded=0&left=");
        let left = i64_to_string(self.info_length);
        out.append(left.as_str());
        out.append("&event=started");
        assert(out@ =~= spec_query_string(
            self.info_hash@,
            self.client_port as int,
            self.info_length as int,
            self.client_peer_id@,
        ));
        out
    }
}

} // verus!
