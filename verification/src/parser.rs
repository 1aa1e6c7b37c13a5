//! Turning the bytes of a torrent description into a `Torrent`. Reading
//! those bytes from a file is the caller's business.

use vstd::prelude::*;
use crate::bencode::{Bencode, BencodeError, bview, spec_decode, spec_encode};
use crate::torrent::{FromTorrentError, Torrent, hex_chars_of, sha1_of, spec_torrent_from};
use crate::bencode::ToBencode;

verus! {

#[derive(Debug)]
pub enum ParseError {
    IoError(String),
    BencodeError(BencodeError),
    FromTorrentError(FromTorrentError),
}

pub struct TorrentParser;

impl TorrentParser {
    /// Parses the bytes of a torrent description: the bencoded
    /// dictionary is decoded and read into a `Torrent`.
    pub fn parse(data: &[u8]) -> (r: Result<Torrent, ParseError>)
        ensures
            r is Ok <==> (spec_decode(data@) matches Some(p) && spec_torrent_from(p.0) is Ok),
            r matches Ok(t) ==> (spec_decode(data@) matches Some(p) && spec_torrent_from(p.0)
                matches Ok(q) && t.announce_url@ == q.0 && (t.info.length as int, t.info.name@,
            t.info.piece_length as int, t.info.pieces@) == q.1 && t.info_hash@ == hex_chars_of(
                sha1_of(spec_encode(t.info.spec_bencode())),
            )),
            r matches Err(e) ==> !(e is IoError),
            r matches Err(e) ==> ((e matches ParseError::BencodeError(_) && spec_decode(data@)
                is None) || (e matches ParseError::FromTorrentError(fe) && spec_decode(data@)
                matches Some(p) && spec_torrent_from(p.0) == Err::<
                (Seq<char>, (int, Seq<char>, int, Seq<u8>)),
                _,
            >(fe))),
    {
        let bencode = match Bencode::decode(data) {
            Ok(b) => b,
            Err(e) => {
                return Err(ParseError::BencodeError(e));
            },
        };
        match Torrent::from(bencode) {
            Ok(t) => Ok(t),
            Err(e) => Err(ParseError::FromTorrentError(e)),
        }
    }
}

} // verus!
