//! Parsing a tracker announce URL into scheme, host, port and endpoint.

use vstd::prelude::*;
use vstd::string::StringSliceAdditionalSpecFns;
use vstd::utf8::{decode_utf8, valid_utf8};
use crate::bencode::find_byte;
use crate::byte_util::{bytes_to_string, copy_bytes, eq_bytes};
use crate::numerals::{parse_i64, parse_int};

verus! {

/// A parsed tracker URL.
#[derive(Debug, PartialEq)]
pub struct TrackerUrl {
    pub protocol: ConnectionProtocol,
    pub host: String,
    pub port: u32,
    pub endpoint: String,
}

/// The connection schemes a tracker URL may use.
#[derive(Debug, PartialEq, Eq, Clone, Copy)]
pub enum ConnectionProtocol {
    Http,
    Https,
}

impl Clone for TrackerUrl {
    /// Field-for-field copy.
    fn clone(&self) -> (r: TrackerUrl)
        ensures
            r.protocol == self.protocol,
            r.host@ == self.host@,
            r.port == self.port,
            r.endpoint@ == self.endpoint@,
    {
        TrackerUrl {
            protocol: self.protocol,
            host: self.host.clone(),
            port: self.port,
            endpoint: self.endpoint.clone(),
        }
    }
}

#[derive(Debug, PartialEq)]
pub enum TrackerUrlError {
    InvalidTrackerURL,
    UnsupportedConnectionProtocol,
    InvalidPortNumber,
}

pub open spec fn http_bytes() -> Seq<u8> {
    seq![104u8, 116u8, 116u8, 112u8]
}

pub open spec fn https_bytes() -> Seq<u8> {
    seq![104u8, 116u8, 116u8, 112u8, 115u8]
}

/// First position of the "://" separator.
pub open spec fn find_scheme_sep(b: Seq<u8>) -> Option<int>
    decreases b.len(),
{
    if b.len() < 3 {
        None
    } else if b[0] == 58 && b[1] == 47 && b[2] == 47 {
        Some(0)
    } else {
        match find_scheme_sep(b.drop_first()) {
            Some(i) => Some(i + 1),
            None => None,
        }
    }
}

/// Last position of `c` in `b`.
pub open spec fn rfind_byte(b: Seq<u8>, c: u8) -> Option<int>
    decreases b.len(),
{
    if b.len() == 0 {
        None
    } else if b.last() == c {
        Some(b.len() - 1)
    } else {
        rfind_byte(b.drop_last(), c)
    }
}

/// What parsing a URL's bytes yields: scheme, host bytes, port, and
/// endpoint bytes. Mirrors the splitting the parser performs: scheme
/// before "://", endpoint between the first two slashes after it, host
/// before the first colon of the authority, port after its last colon.
pub open spec fn spec_parse_url(b: Seq<u8>) -> Result<
    (ConnectionProtocol, Seq<u8>, int, Seq<u8>),
    TrackerUrlError,
> {
    match find_scheme_sep(b) {
        None => Err(TrackerUrlError::InvalidTrackerURL),
        Some(i) => {
            if b.take(i) != http_bytes() && b.take(i) != https_bytes() {
                Err(TrackerUrlError::UnsupportedConnectionProtocol)
            } else {
                let proto = if b.take(i) == https_bytes() {
                    ConnectionProtocol::Https
                } else {
                    ConnectionProtocol::Http
                };
                let rest = b.skip(i + 3);
                match find_byte(rest, 47) {
                    None => Err(TrackerUrlError::InvalidTrackerURL),
                    Some(j) => {
                        let without_endpoint = rest.take(j);
                        let after = rest.skip(j + 1);
                        let endpoint = match find_byte(after, 47) {
                            Some(j2) => after.take(j2),
                            None => after,
                        };
                        let host = match find_byte(without_endpoint, 58) {
                            Some(h) => without_endpoint.take(h),
                            None => without_endpoint,
                        };
                        if !valid_utf8(host) || !valid_utf8(endpoint) {
                            Err(TrackerUrlError::InvalidTrackerURL)
                        } else {
                            match rfind_byte(without_endpoint, 58) {
                                Some(lc) => {
                                    let port_digits = without_endpoint.skip(lc + 1);
                                    match parse_int(port_digits) {
                                        Some(v) => if 0 <= v <= u32::MAX {
                                            Ok((proto, host, v, endpoint))
                                        } else {
                                            Err(TrackerUrlError::InvalidPortNumber)
                                        },
                                        None => Err(TrackerUrlError::InvalidPortNumber),
                                    }
                                },
                                None => Ok(
                                    (
                                        proto,
                                        host,
                                        if proto is Https {
                                            443int
                                        } else {
                                            80int
                                        },
                                        endpoint,
                                    ),
                                ),
                            }
                        }
                    },
                }
            }
        },
    }
}

/// If the first "://" is at `i`, the finder returns `i`; if none exists
/// the finder returns nothing.
proof fn lemma_find_scheme_first(b: Seq<u8>, i: int)
    requires
        0 <= i <= b.len(),
        forall|j: int|
            0 <= j < i && j + 3 <= b.len() ==> !((#[trigger] b[j]) == 58 && b[j + 1] == 47 && b[j
                + 2] == 47),
    ensures
        i + 3 <= b.len() && b[i] == 58 && b[i + 1] == 47 && b[i + 2] == 47 ==> find_scheme_sep(b)
            == Some(i),
        i + 3 > b.len() ==> find_scheme_sep(b) is None,
    decreases i,
{
    if i == 0 {
        if i + 3 > b.len() {
            if b.len() >= 3 {
            }
        }
    } else {
        let t = b.drop_first();
        assert(forall|j: int| 0 <= j < t.len() ==> #[trigger] t[j] == b[j + 1]);
        lemma_find_scheme_first(t, i - 1);
        if b.len() >= 3 {
            assert(!(b[0] == 58 && b[1] == 47 && b[2] == 47));
        }
    }
}

/// If the last `c` is at `i`, the reverse finder returns `i`; if no
/// position holds `c` it returns nothing.
proof fn lemma_rfind_byte(b: Seq<u8>, c: u8, i: int)
    requires
        0 <= i <= b.len(),
        forall|j: int| i <= j < b.len() ==> b[j] != c,
    ensures
        i > 0 && b[i - 1] == c ==> rfind_byte(b, c) == Some(i - 1),
        i == 0 ==> rfind_byte(b, c) is None,
    decreases b.len() - i,
{
    if i < b.len() {
        let t = b.drop_last();
        assert(forall|j: int| 0 <= j < t.len() ==> #[trigger] t[j] == b[j]);
        lemma_rfind_byte(t, c, i);
        assert(b.last() != c);
    }
}

impl TrackerUrl {
    /// Parses a tracker URL. The scheme must be `http` or `https`; a
    /// path separator must follow the authority; an explicit port must
    /// be a number, and defaults to 443 for https and 80 for http.
    #[verifier::rlimit(100)]
    pub fn parse(url: &str) -> (r: Result<TrackerUrl, TrackerUrlError>)
        ensures
            match r {
                Ok(t) => spec_parse_url(url.spec_bytes()) matches Ok(p) && t.protocol == p.0
                    && t.host@ == decode_utf8(p.1) && t.port == p.2 && t.endpoint@ == decode_utf8(
                    p.3,
                ),
                Err(e) => spec_parse_url(url.spec_bytes()) == Err::<
                    (ConnectionProtocol, Seq<u8>, int, Seq<u8>),
                    _,
                >(e),
            },
    {
        let b = url.as_bytes();
        let blen = b.len();
        let ghost bv = b@;
        // find "://"
        let mut i: usize = 0;
        let mut sep: Option<usize> = None;
        while i < blen
            invariant_except_break
                i <= blen,
                blen == bv.len(),
                b@ == bv,
                sep is None,
                forall|j: int|
                    0 <= j < i && j + 3 <= blen ==> !((#[trigger] bv[j]) == 58 && bv[j + 1] == 47
                        && bv[j + 2] == 47),
            ensures
                b@ == bv,
                blen == bv.len(),
                match sep {
                    Some(se) => se + 3 <= blen && bv[se as int] == 58 && bv[se + 1] == 47 && bv[se
                        + 2] == 47 && (forall|j: int|
                        0 <= j < se && j + 3 <= blen ==> !((#[trigger] bv[j]) == 58 && bv[j + 1]
                            == 47 && bv[j + 2] == 47)),
                    None => forall|j: int|
                        0 <= j && j + 3 <= blen ==> !((#[trigger] bv[j]) == 58 && bv[j + 1] == 47
                            && bv[j + 2] == 47),
                },
            decreases blen - i,
        {
            if blen - i < 3 {
                break;
            }
            if b[i] == 58 && b[i + 1] == 47 && b[i + 2] == 47 {
                sep = Some(i);
                break;
            }
            i = i + 1;
        }
        let s = match sep {
            Some(s) => {
                proof {
                    lemma_find_scheme_first(bv, s as int);
                }
                s
            },
            None => {
                proof {
                    lemma_find_scheme_first(bv, bv.len() as int);
                }
                return Err(TrackerUrlError::InvalidTrackerURL);
            },
        };
        let lit_http: [u8; 4] = [104, 116, 116, 112];
        let lit_https: [u8; 5] = [104, 116, 116, 112, 115];
        proof {
            assert(lit_http@ =~= http_bytes());
            assert(lit_https@ =~= https_bytes());
            assert(b@.subrange(0, s as int) =~= bv.take(s as int));
        }
        let scheme = &b[0..s];
        let protocol: ConnectionProtocol = if eq_bytes(scheme, lit_http.as_slice()) {
            ConnectionProtocol::Http
        } else if eq_bytes(scheme, lit_https.as_slice()) {
            ConnectionProtocol::Https
        } else {
            return Err(TrackerUrlError::UnsupportedConnectionProtocol);
        };
        let ghost rest = bv.skip(s + 3);
        // find the first '/' after the separator
        let mut j: usize = s + 3;
        while j < blen && b[j] != 47
            invariant
                s + 3 <= j <= blen,
                blen == bv.len(),
                b@ == bv,
                forall|k: int| s + 3 <= k < j ==> bv[k] != 47,
            decreases blen - j,
        {
            j = j + 1;
        }
        proof {
            assert(forall|k: int| 0 <= k < rest.len() ==> #[trigger] rest[k] == bv[s + 3 + k]);
            crate::bencode::lemma_find_byte_first(rest, 47, j - (s + 3));
        }
        if j >= blen {
            return Err(TrackerUrlError::InvalidTrackerURL);
        }
        let ghost without_endpoint = rest.take(j - (s + 3));
        let ghost after = rest.skip(j - (s + 3) + 1);
        // the endpoint runs to the next '/' or the end
        let mut j2: usize = j + 1;
        while j2 < blen && b[j2] != 47
            invariant
                j + 1 <= j2 <= blen,
                blen == bv.len(),
                b@ == bv,
                forall|k: int| j + 1 <= k < j2 ==> bv[k] != 47,
            decreases blen - j2,
        {
            j2 = j2 + 1;
        }
        proof {
            assert(forall|k: int| 0 <= k < after.len() ==> #[trigger] after[k] == bv[j + 1 + k]);
            crate::bencode::lemma_find_byte_first(after, 47, j2 - (j + 1));
        }
        let ghost endpoint_bytes = if j2 < blen {
            after.take(j2 - (j + 1))
        } else {
            after
        };
        proof {
            assert(bv.subrange(j + 1, j2 as int) =~= endpoint_bytes);
        }
        // the host runs to the first ':' of the authority
        let mut h: usize = s + 3;
        while h < j && b[h] != 58
            invariant
                s + 3 <= h <= j,
                j <= blen,
                blen == bv.len(),
                b@ == bv,
                forall|k: int| s + 3 <= k < h ==> bv[k] != 58,
            decreases j - h,
        {
            h = h + 1;
        }
        proof {
            assert(forall|k: int|
                0 <= k < without_endpoint.len() ==> #[trigger] without_endpoint[k] == bv[s + 3
                    + k]);
            crate::bencode::lemma_find_byte_first(without_endpoint, 58, h - (s + 3));
        }
        let ghost host_bytes = if h < j {
            without_endpoint.take(h - (s + 3))
        } else {
            without_endpoint
        };
        proof {
            assert(bv.subrange(s + 3, h as int) =~= host_bytes);
        }
        let host_vec = copy_bytes(&b[s + 3..h]);
        let endpoint_vec = copy_bytes(&b[j + 1..j2]);
        let host = match bytes_to_string(host_vec) {
            Some(x) => x,
            None => {
                return Err(TrackerUrlError::InvalidTrackerURL);
            },
        };
        let endpoint = match bytes_to_string(endpoint_vec) {
            Some(x) => x,
            None => {
                return Err(TrackerUrlError::InvalidTrackerURL);
            },
        };
        // the port follows the last ':' of the authority, if any
        let mut lc: usize = j;
        while lc > s + 3 && b[lc - 1] != 58
            invariant
                s + 3 <= lc <= j,
                j <= blen,
                blen == bv.len(),
                b@ == bv,
                forall|k: int| lc <= k < j ==> bv[k] != 58,
            decreases lc,
        {
            lc = lc - 1;
        }
        proof {
            assert(forall|k: int|
                0 <= k < without_endpoint.len() ==> #[trigger] without_endpoint[k] == bv[s + 3
                    + k]);
            lemma_rfind_byte(without_endpoint, 58, lc - (s + 3));
        }
        if lc == s + 3 {
            // no colon: the scheme's default port
            let port: u32 = match protocol {
                ConnectionProtocol::Https => 443,
                ConnectionProtocol::Http => 80,
            };
            return Ok(TrackerUrl { protocol, host, port, endpoint });
        }
        proof {
            assert(without_endpoint.skip(lc - (s + 3)) =~= bv.subrange(lc as int, j as int));
        }
        let port_num = match parse_i64(&b[lc..j]) {
            Some(v) => v,
            None => {
                return Err(TrackerUrlError::InvalidPortNumber);
            },
        };
        if port_num < 0 || port_num > u32::MAX as i64 {
            return Err(TrackerUrlError::InvalidPortNumber);
        }
        Ok(TrackerUrl { protocol, host, port: port_num as u32, endpoint })
    }
}

} // verus!
