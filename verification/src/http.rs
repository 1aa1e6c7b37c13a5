//! The tracker's HTTP surface: the request line parser, the query
//! parameter table, methods, status lines, and response framing.

use vstd::prelude::*;
use vstd::string::{StrSliceExecFns, StringExecFns, StringSliceAdditionalSpecFns};
use vstd::utf8::{decode_utf8, valid_utf8};
use crate::bencode::{find_byte, lemma_find_byte_first};
use crate::byte_util::{bytes_to_string, copy_bytes, eq_bytes, push_bytes};

verus! {

/// The methods the tracker understands.
#[derive(Debug, PartialEq)]
pub enum HttpMethod {
    Get,
}

impl HttpMethod {
    /// Only "GET" parses.
    pub fn from_str(s: &str) -> (r: Result<HttpMethod, ()>)
        ensures
            r is Ok <==> s.spec_bytes() == seq![71u8, 69u8, 84u8],
    {
        let lit: [u8; 3] = [71, 69, 84];
        proof {
            assert(lit@ =~= seq![71u8, 69u8, 84u8]);
        }
        if eq_bytes(s.as_bytes(), lit.as_slice()) {
            Ok(HttpMethod::Get)
        } else {
            Err(())
        }
    }
}

/// The status lines the tracker answers with.
#[derive(Debug, PartialEq)]
pub enum HttpStatus {
    Okay,
    NotFound,
    BadRequest,
}

impl HttpStatus {
    /// Parses a status line text back into a status.
    pub fn from_str(s: &str) -> (r: Result<HttpStatus, ()>)
        ensures
            r == Ok::<HttpStatus, ()>(HttpStatus::Okay) ==> s@ == "200 OK"@,
            r == Ok::<HttpStatus, ()>(HttpStatus::NotFound) ==> s@ == "404 NOT FOUND"@,
            r == Ok::<HttpStatus, ()>(HttpStatus::BadRequest) ==> s@ == "400 BAD REQUEST"@,
    {
        let ok = String::from_str("200 OK");
        let nf = String::from_str("404 NOT FOUND");
        let br = String::from_str("400 BAD REQUEST");
        if string_eq(s, ok.as_str()) {
            Ok(HttpStatus::Okay)
        } else if string_eq(s, nf.as_str()) {
            Ok(HttpStatus::NotFound)
        } else if string_eq(s, br.as_str()) {
            Ok(HttpStatus::BadRequest)
        } else {
            Err(())
        }
    }

    /// The text of the status line.
    pub fn to_string(&self) -> (r: String)
        ensures
            self is Okay ==> r@ == "200 OK"@,
            self is NotFound ==> r@ == "404 NOT FOUND"@,
            self is BadRequest ==> r@ == "400 BAD REQUEST"@,
    {
        match self {
            HttpStatus::Okay => String::from_str("200 OK"),
            HttpStatus::NotFound => String::from_str("404 NOT FOUND"),
            HttpStatus::BadRequest => String::from_str("400 BAD REQUEST"),
        }
    }
}

/// A parsed request: the method, the endpoint, and the query parameters
/// in order of appearance (a repeated key is looked up last-wins).
#[derive(Debug)]
pub struct Http {
    pub method: HttpMethod,
    pub endpoint: String,
    pub params: Vec<(String, String)>,
}

#[derive(Debug)]
pub enum HttpError {
    ParseError,
    HttpMethodNotSupported,
}

/// One `key=value` parameter: the key before the first '=', the value
/// between the first and second '=' (or the end).
pub open spec fn spec_param(seg: Seq<u8>) -> Option<(Seq<u8>, Seq<u8>)> {
    match find_byte(seg, 61) {
        None => None,
        Some(e) => {
            let rest = seg.skip(e + 1);
            let value = match find_byte(rest, 61) {
                Some(e2) => rest.take(e2),
                None => rest,
            };
            Some((seg.take(e), value))
        },
    }
}

/// The parameters of a query string, split at '&'.
pub open spec fn spec_params(q: Seq<u8>) -> Option<Seq<(Seq<u8>, Seq<u8>)>>
    decreases q.len(),
{
    match find_byte(q, 38) {
        None => match spec_param(q) {
            None => None,
            Some(p) => Some(seq![p]),
        },
        Some(a) => if !(0 <= a < q.len()) {
            None
        } else {
            match spec_param(q.take(a)) {
                None => None,
                Some(p) => match spec_params(q.skip(a + 1)) {
                    None => None,
                    Some(rest) => Some(seq![p] + rest),
                },
            }
        },
    }
}

/// What parsing a request's bytes yields: the endpoint bytes and the raw
/// parameters. The request line runs to the first CR or the end; the
/// method is its first space-separated token and must be GET; the
/// second token splits at '?' into endpoint and query.
pub open spec fn spec_http_parse(b: Seq<u8>) -> Result<(Seq<u8>, Seq<(Seq<u8>, Seq<u8>)>), HttpError> {
    let line = match find_byte(b, 13) {
        Some(c) => b.take(c),
        None => b,
    };
    match find_byte(line, 32) {
        None => if line == seq![71u8, 69u8, 84u8] {
            Err(HttpError::ParseError)
        } else {
            Err(HttpError::HttpMethodNotSupported)
        },
        Some(sp) => {
            if line.take(sp) != seq![71u8, 69u8, 84u8] {
                Err(HttpError::HttpMethodNotSupported)
            } else {
                let rest = line.skip(sp + 1);
                let tok = match find_byte(rest, 32) {
                    Some(sp2) => rest.take(sp2),
                    None => rest,
                };
                match find_byte(tok, 63) {
                    None => Err(HttpError::ParseError),
                    Some(qm) => {
                        let endpoint = tok.take(qm);
                        let query = tok.skip(qm + 1);
                        match spec_params(query) {
                            None => Err(HttpError::ParseError),
                            Some(ps) => Ok((endpoint, ps)),
                        }
                    },
                }
            }
        },
    }
}

/// Finds the first occurrence of `c` in `b[from..to]`, scanning
/// left to right.
fn scan_byte(b: &[u8], from: usize, to: usize, c: u8) -> (r: Option<usize>)
    requires
        from <= to <= b@.len(),
    ensures
        match r {
            Some(p) => from <= p < to && find_byte(b@.subrange(from as int, to as int), c) == Some(
                p - from,
            ),
            None => find_byte(b@.subrange(from as int, to as int), c) is None,
        },
{
    let ghost seg = b@.subrange(from as int, to as int);
    proof {
        assert(forall|k: int| 0 <= k < seg.len() ==> #[trigger] seg[k] == b@[from + k]);
    }
    let mut i: usize = from;
    while i < to && b[i] != c
        invariant
            from <= i <= to,
            to <= b@.len(),
            forall|k: int| from <= k < i ==> b@[k] != c,
        decreases to - i,
    {
        i = i + 1;
    }
    proof {
        lemma_find_byte_first(seg, c, i - from);
    }
    if i < to {
        Some(i)
    } else {
        None
    }
}

impl Http {
    /// Parses an HTTP request's opening bytes into method, endpoint and
    /// query parameters, all of which must be valid UTF-8.
    #[verifier::rlimit(100)]
    pub fn parse(buffer: &[u8]) -> (r: Result<Http, HttpError>)
        ensures
            r matches Ok(h) ==> spec_http_parse(buffer@) matches Ok(p) && h.method is Get
                && valid_utf8(p.0) && h.endpoint@ == decode_utf8(p.0) && params_correspond(
                p.1,
                h.params@,
            ),
            r matches Err(e) ==> {
                ||| spec_http_parse(buffer@) == Err::<(Seq<u8>, Seq<(Seq<u8>, Seq<u8>)>), _>(e)
                ||| (spec_http_parse(buffer@) matches Ok(p) && !(valid_utf8(p.0)
                    && all_params_utf8(p.1)))
            },
    {
        let blen = buffer.len();
        let line_end = match scan_byte(buffer, 0, blen, 13) {
            Some(c) => c,
            None => blen,
        };
        proof {
            assert(buffer@.subrange(0, blen as int) =~= buffer@);
        }
        let ghost line = if line_end < blen {
            buffer@.take(line_end as int)
        } else {
            buffer@
        };
        let sp = match scan_byte(buffer, 0, line_end, 32) {
            Some(p) => p,
            None => {
                proof {
                    assert(buffer@.subrange(0, line_end as int) =~= line.subrange(
                        0,
                        line_end as int,
                    ));
                }
                let lit: [u8; 3] = [71, 69, 84];
                proof {
                    assert(lit@ =~= seq![71u8, 69u8, 84u8]);
                }
                if line_end == 3 && eq_bytes(&buffer[0..3], lit.as_slice()) {
                    return Err(HttpError::ParseError);
                }
                return Err(HttpError::HttpMethodNotSupported);
            },
        };
        let lit: [u8; 3] = [71, 69, 84];
        proof {
            assert(lit@ =~= seq![71u8, 69u8, 84u8]);
            assert(buffer@.subrange(0, sp as int) =~= line.take(sp as int));
        }
        if !eq_bytes(&buffer[0..sp], lit.as_slice()) {
            return Err(HttpError::HttpMethodNotSupported);
        }
        let ghost rest = line.skip(sp + 1);
        let sp2 = match scan_byte(buffer, sp + 1, line_end, 32) {
            Some(p) => p,
            None => line_end,
        };
        let ghost tok = rest.take(sp2 - (sp + 1));
        proof {
            assert(forall|k: int| 0 <= k < rest.len() ==> #[trigger] rest[k] == line[sp + 1 + k]);
            assert(buffer@.subrange(sp + 1, line_end as int) =~= rest);
            assert(buffer@.subrange(sp + 1, sp2 as int) =~= tok);
        }
        let qm = match scan_byte(buffer, sp + 1, sp2, 63) {
            Some(p) => p,
            None => {
                return Err(HttpError::ParseError);
            },
        };
        let ghost endpoint_bytes = tok.take(qm - (sp + 1));
        proof {
            assert(buffer@.subrange(sp + 1, qm as int) =~= endpoint_bytes);
        }
        let endpoint = match bytes_to_string(copy_bytes(&buffer[sp + 1..qm])) {
            Some(x) => x,
            None => {
                return Err(HttpError::ParseError);
            },
        };
        let ghost query = tok.skip(qm - (sp + 1) + 1);
        proof {
            assert(buffer@.subrange(qm + 1, sp2 as int) =~= query);
        }
        let params = match parse_params_range(buffer, qm + 1, sp2) {
            Ok(ps) => ps,
            Err(e) => {
                proof {
                    if spec_params(buffer@.subrange(qm + 1, sp2 as int)) is Some {
                        assert(spec_http_parse(buffer@) matches Ok(p) && !(valid_utf8(p.0)
                            && all_params_utf8(p.1)));
                    } else {
                        assert(spec_http_parse(buffer@) == Err::<
                            (Seq<u8>, Seq<(Seq<u8>, Seq<u8>)>),
                            _,
                        >(HttpError::ParseError));
                    }
                }
                return Err(e);
            },
        };
        Ok(Http { method: HttpMethod::Get, endpoint, params })
    }
}

/// Splits `b[from..to]` at '&' into `key=value` parameters.
#[verifier::rlimit(60)]
fn parse_params_range(b: &[u8], from: usize, to: usize) -> (r: Result<
    Vec<(String, String)>,
    HttpError,
>)
    requires
        from <= to <= b@.len(),
    ensures
        r matches Ok(ps) ==> spec_params(b@.subrange(from as int, to as int)) matches Some(raw)
            && params_correspond(raw, ps@),
        r is Err ==> !(spec_params(b@.subrange(from as int, to as int)) matches Some(raw)
            && all_params_utf8(raw)),
        r matches Err(e) ==> e is ParseError,
    decreases to - from,
{
    let amp = match scan_byte(b, from, to, 38) {
        Some(p) => p,
        None => {
            let (k, v) = match parse_one_param(b, from, to) {
                Ok(p) => p,
                Err(e) => {
                    proof {
                        let seg2 = b@.subrange(from as int, to as int);
                        if spec_params(seg2) is Some {
                            let raw = spec_params(seg2)->Some_0;
                            let p0 = spec_param(seg2)->Some_0;
                            assert(raw == seq![p0]);
                            if all_params_utf8(raw) {
                                assert(valid_utf8(raw[0].0));
                                assert(valid_utf8(raw[0].1));
                            }
                        }
                    }
                    return Err(e);
                },
            };
            let mut out: Vec<(String, String)> = Vec::new();
            let ghost kv = (k@, v@);
            out.push((k, v));
            proof {
                let seg2 = b@.subrange(from as int, to as int);
                let p0 = spec_param(seg2)->Some_0;
                assert(spec_params(seg2) == Some(seq![p0]));
                assert(params_correspond(seq![p0], out@));
            }
            return Ok(out);
        },
    };
    let ghost seg = b@.subrange(from as int, to as int);
    let ghost head = seg.take(amp - from);
    proof {
        assert(b@.subrange(from as int, amp as int) =~= head);
        assert(b@.subrange(amp + 1, to as int) =~= seg.skip(amp - from + 1));
    }
    let (k, v) = match parse_one_param(b, from, amp) {
        Ok(p) => p,
        Err(e) => {
            proof {
                let seg2 = b@.subrange(from as int, to as int);
                if spec_params(seg2) is Some {
                    let raw = spec_params(seg2)->Some_0;
                    let p0 = spec_param(b@.subrange(from as int, amp as int))->Some_0;
                    let rr = spec_params(b@.subrange(amp + 1, to as int))->Some_0;
                    assert(raw == seq![p0] + rr);
                    if all_params_utf8(raw) {
                        assert(valid_utf8(raw[0].0));
                        assert(valid_utf8(raw[0].1));
                        assert(raw[0] == p0);
                    }
                }
            }
            return Err(e);
        },
    };
    let rest = match parse_params_range(b, amp + 1, to) {
        Ok(ps) => ps,
        Err(e) => {
            proof {
                let seg2 = b@.subrange(from as int, to as int);
                if spec_params(seg2) is Some {
                    let raw = spec_params(seg2)->Some_0;
                    let p0 = spec_param(b@.subrange(from as int, amp as int))->Some_0;
                    let rr = spec_params(b@.subrange(amp + 1, to as int))->Some_0;
                    assert(raw == seq![p0] + rr);
                    if all_params_utf8(raw) {
                        assert(all_params_utf8(rr)) by {
                            assert forall|ii: int| 0 <= ii < rr.len() implies valid_utf8(
                                (#[trigger] rr[ii]).0,
                            ) && valid_utf8(rr[ii].1) by {
                                assert(raw[ii + 1] == rr[ii]);
                                assert(valid_utf8(raw[ii + 1].0));
                                assert(valid_utf8(raw[ii + 1].1));
                            }
                        }
                    }
                }
            }
            return Err(e);
        },
    };
    let mut out: Vec<(String, String)> = Vec::new();
    let ghost kv = (k@, v@);
    out.push((k, v));
    let ghost restv = rest@;
    let mut i: usize = 0;
    while i < rest.len()
        invariant
            i <= restv.len(),
            rest@ == restv,
            out@.len() == i + 1,
            forall|m: int|
                1 <= m <= i ==> (#[trigger] out@[m]).0@ == restv[m - 1].0@ && out@[m].1@
                    == restv[m - 1].1@,
            out@[0].0@ == kv.0 && out@[0].1@ == kv.1,
        decreases restv.len() - i,
    {
        let entry = &rest[i];
        out.push((entry.0.clone(), entry.1.clone()));
        i = i + 1;
    }
    proof {
        let seg2 = b@.subrange(from as int, to as int);
        assert(seg2.take(amp - from) =~= b@.subrange(from as int, amp as int));
        assert(seg2.skip(amp - from + 1) =~= b@.subrange(amp + 1, to as int));
        let p0 = spec_param(b@.subrange(from as int, amp as int))->Some_0;
        let rawrest = spec_params(b@.subrange(amp + 1, to as int))->Some_0;
        assert(spec_params(seg2) == Some(seq![p0] + rawrest));
        let raw = seq![p0] + rawrest;
        assert(spec_params(b@.subrange(amp + 1, to as int)) is Some);
        assert(params_correspond(rawrest, restv));
        assert forall|ii: int| 0 <= ii < raw.len() implies valid_utf8(#[trigger] raw[ii].0)
            && valid_utf8(raw[ii].1) && out@[ii].0@ == decode_utf8(raw[ii].0) && out@[ii].1@
            == decode_utf8(raw[ii].1) by {
            if ii == 0 {
                assert(raw[0] == p0);
            } else {
                assert(raw[ii] == rawrest[ii - 1]);
                assert(valid_utf8(rawrest[ii - 1].0));
                assert(valid_utf8(rawrest[ii - 1].1));
                assert((out@[ii]).0@ == restv[ii - 1].0@);
                assert((out@[ii]).1@ == restv[ii - 1].1@);
                assert(restv[ii - 1].0@ == decode_utf8(rawrest[ii - 1].0));
                assert(restv[ii - 1].1@ == decode_utf8(rawrest[ii - 1].1));
            }
        }
        assert(params_correspond(raw, out@));
    }
    Ok(out)
}

/// Whether every raw parameter is valid UTF-8.
pub open spec fn all_params_utf8(raw: Seq<(Seq<u8>, Seq<u8>)>) -> bool {
    forall|i: int|
        0 <= i < raw.len() ==> valid_utf8((#[trigger] raw[i]).0) && valid_utf8(raw[i].1)
}

/// The decoded parameter table spells out exactly the raw parameters.
pub open spec fn params_correspond(raw: Seq<(Seq<u8>, Seq<u8>)>, ps: Seq<(String, String)>) -> bool {
    ps.len() == raw.len() && (forall|i: int|
        0 <= i < raw.len() ==> valid_utf8(#[trigger] raw[i].0) && valid_utf8(raw[i].1) && ps[i].0@
            == decode_utf8(raw[i].0) && ps[i].1@ == decode_utf8(raw[i].1))
}

/// One `key=value` in `b[from..to]`.
fn parse_one_param(b: &[u8], from: usize, to: usize) -> (r: Result<(String, String), HttpError>)
    requires
        from <= to <= b@.len(),
    ensures
        r matches Ok(p) ==> spec_param(b@.subrange(from as int, to as int)) matches Some(raw)
            && valid_utf8(raw.0) && valid_utf8(raw.1) && p.0@ == decode_utf8(raw.0) && p.1@
            == decode_utf8(raw.1),
        r is Err ==> !(spec_param(b@.subrange(from as int, to as int)) matches Some(raw)
            && valid_utf8(raw.0) && valid_utf8(raw.1)),
        r matches Err(e) ==> e is ParseError,
{
    let ghost seg = b@.subrange(from as int, to as int);
    let eq1 = match scan_byte(b, from, to, 61) {
        Some(p) => p,
        None => {
            return Err(HttpError::ParseError);
        },
    };
    let ghost rest = seg.skip(eq1 - from + 1);
    proof {
        assert(b@.subrange(from as int, eq1 as int) =~= seg.take(eq1 - from));
        assert(b@.subrange(eq1 + 1, to as int) =~= rest);
    }
    let eq2 = match scan_byte(b, eq1 + 1, to, 61) {
        Some(p) => p,
        None => to,
    };
    proof {
        assert(b@.subrange(eq1 + 1, eq2 as int) =~= if eq2 < to {
            rest.take(eq2 - (eq1 + 1))
        } else {
            rest
        });
    }
    let key = match bytes_to_string(copy_bytes(&b[from..eq1])) {
        Some(x) => x,
        None => {
            return Err(HttpError::ParseError);
        },
    };
    let value = match bytes_to_string(copy_bytes(&b[eq1 + 1..eq2])) {
        Some(x) => x,
        None => {
            return Err(HttpError::ParseError);
        },
    };
    Ok((key, value))
}

/// The value of the last parameter with the given key, if any.
pub fn get_param<'a>(params: &'a Vec<(String, String)>, key: &str) -> (r: Option<&'a String>)
    ensures
        match r {
            Some(v) => exists|i: int|
                0 <= i < params@.len() && #[trigger] params@[i].0@ == key@ && v@ == params@[i].1@
                    && (forall|j: int| i < j < params@.len() ==> params@[j].0@ != key@),
            None => forall|i: int| 0 <= i < params@.len() ==> #[trigger] params@[i].0@ != key@,
        },
{
    let n = params.len();
    let mut i: usize = n;
    while i > 0
        invariant
            i <= n,
            n == params@.len(),
            forall|j: int| i <= j < n ==> #[trigger] params@[j].0@ != key@,
        decreases i,
    {
        i = i - 1;
        let hit = {
            let entry = &params[i];
            string_eq(entry.0.as_str(), key)
        };
        if hit {
            return Some(&params[i].1);
        }
    }
    None
}

/// Two string slices are equal exactly when their characters are.
pub fn string_eq(a: &str, b: &str) -> (r: bool)
    ensures
        r == (a@ == b@),
{
    let la = a.unicode_len();
    let lb = b.unicode_len();
    if la != lb {
        return false;
    }
    let mut i: usize = 0;
    while i < la
        invariant
            la == a@.len(),
            la == b@.len(),
            i <= la,
            forall|j: int| 0 <= j < i ==> a@[j] == b@[j],
        decreases la - i,
    {
        if a.get_char(i) != b.get_char(i) {
            return false;
        }
        i = i + 1;
    }
    proof {
        assert(a@ =~= b@);
    }
    true
}

/// The value of the last parameter with the given key, as `get_param`
/// finds it.
pub open spec fn lookup_param(ps: Seq<(String, String)>, key: Seq<char>) -> Option<Seq<char>>
    decreases ps.len(),
{
    if ps.len() == 0 {
        None
    } else if ps.last().0@ == key {
        Some(ps.last().1@)
    } else {
        lookup_param(ps.drop_last(), key)
    }
}

/// A match at `i` with no later match is what `lookup_param` returns.
pub proof fn lemma_lookup_at(ps: Seq<(String, String)>, key: Seq<char>, i: int)
    requires
        0 <= i < ps.len(),
        ps[i].0@ == key,
        forall|j: int| i < j < ps.len() ==> (#[trigger] ps[j]).0@ != key,
    ensures
        lookup_param(ps, key) == Some(ps[i].1@),
    decreases ps.len(),
{
    if i == ps.len() - 1 {
    } else {
        assert(ps.last().0@ != key);
        let t = ps.drop_last();
        assert(forall|j: int| 0 <= j < t.len() ==> #[trigger] t[j] == ps[j]);
        lemma_lookup_at(t, key, i);
    }
}

/// With no match anywhere, `lookup_param` returns nothing.
pub proof fn lemma_lookup_none(ps: Seq<(String, String)>, key: Seq<char>)
    requires
        forall|j: int| 0 <= j < ps.len() ==> (#[trigger] ps[j]).0@ != key,
    ensures
        lookup_param(ps, key) is None,
    decreases ps.len(),
{
    if ps.len() > 0 {
        let t = ps.drop_last();
        assert(forall|j: int| 0 <= j < t.len() ==> #[trigger] t[j] == ps[j]);
        lemma_lookup_none(t, key);
    }
}

} // verus!
