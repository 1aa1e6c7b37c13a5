//! The client's view of its tracker: the parsed announce URL and the
//! identity it announces with. The network round trip belongs to the
//! caller.

use vstd::prelude::*;
use vstd::string::StringSliceAdditionalSpecFns;
use vstd::utf8::{decode_utf8, encode_utf8};
use crate::torrent::Torrent;
use crate::url_parser::{TrackerUrl, TrackerUrlError, spec_parse_url};

verus! {

/// A tracker to announce to, for one torrent.
#[derive(Debug)]
pub struct TrackerHandler {
    pub torrent: Torrent,
    pub tracker_url: TrackerUrl,
    pub client_port: u32,
    pub client_peer_id: String,
}

#[derive(Debug)]
pub enum TrackerHandlerError {
    HttpHandlerError,
    FromTrackerResponseError,
    UrlParseError(TrackerUrlError),
}

impl TrackerHandler {
    /// Builds the handler by parsing the torrent's announce URL; fails
    /// exactly when the URL does not parse.
    pub fn new(torrent: Torrent, client_port: u32, client_peer_id: String) -> (r: Result<
        TrackerHandler,
        TrackerHandlerError,
    >)
        ensures
            r matches Ok(h) ==> (spec_parse_url(encode_utf8(torrent.announce_url@)) matches Ok(p)
                && h.tracker_url.protocol == p.0 && h.tracker_url.host@ == decode_utf8(p.1)
                && h.tracker_url.port == p.2 && h.tracker_url.endpoint@ == decode_utf8(p.3)
                && h.client_port == client_port),
            r matches Err(e) ==> (e matches TrackerHandlerError::UrlParseError(u) && spec_parse_url(
                encode_utf8(torrent.announce_url@),
            ) == Err::<(crate::url_parser::ConnectionProtocol, Seq<u8>, int, Seq<u8>), _>(u)),
    {
        let tracker_url = match TrackerUrl::parse(torrent.announce_url.as_str()) {
            Ok(url) => url,
            Err(err) => {
                return Err(TrackerHandlerError::UrlParseError(err));
            },
        };
        Ok(TrackerHandler { torrent, tracker_url, client_port, client_peer_id })
    }
}

} // verus!
