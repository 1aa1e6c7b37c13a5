//! The torrent description: announce URL, `info` dictionary, and the
//! 20-byte info identity computed as the SHA-1 of the canonical bencoding
//! of `info`.

use vstd::prelude::*;
use vstd::string::{StrSliceExecFns, StringSliceAdditionalSpecFns};
use vstd::utf8::{decode_utf8, valid_utf8};
use crate::bencode::{
    BValue, Bencode, ToBencode, bpair_views, bview, lemma_bpair_views_index, lemma_bpair_views_len,
    spec_encode,
};
use crate::byte_util::{bytes_to_string, copy_bytes, eq_bytes, lemma_ascii_valid_utf8};
use crate::info::{FromInfoError, Info, spec_info_from};
use sha1::Digest;

verus! {

pub open spec fn key_announce() -> Seq<u8> {
    seq![97u8, 110u8, 110u8, 111u8, 117u8, 110u8, 99u8, 101u8]
}

pub open spec fn key_info() -> Seq<u8> {
    seq![105u8, 110u8, 102u8, 111u8]
}

/// The SHA-1 digest of a byte sequence, a function of the bytes alone.
pub uninterp spec fn sha1_of(bytes: Seq<u8>) -> Seq<u8>;

/// Relies on sha1::Sha1 (through the digest traits): computes the SHA-1
/// of the input, always 20 bytes, determined by the input bytes alone.
#[verifier::external_body]
pub fn sha1_digest(data: &[u8]) -> (r: Vec<u8>)
    ensures
        r@ == sha1_of(data@),
        r@.len() == 20,
{
    sha1::Sha1::digest(data).to_vec()
}

/// The lowercase hexadecimal digit byte for a nibble.
pub open spec fn hex_digit_byte(n: int) -> u8 {
    if n < 10 {
        (48 + n) as u8
    } else {
        (87 + n) as u8
    }
}

/// Lowercase hexadecimal rendering of bytes, two digits per byte.
pub open spec fn hex_bytes_of(bytes: Seq<u8>) -> Seq<u8> {
    Seq::new(
        2 * bytes.len(),
        |i: int|
            if i % 2 == 0 {
                hex_digit_byte((bytes[i / 2] >> 4u8) as int)
            } else {
                hex_digit_byte((bytes[i / 2] & 15u8) as int)
            },
    )
}

/// The same rendering as characters.
pub open spec fn hex_chars_of(bytes: Seq<u8>) -> Seq<char> {
    Seq::new(2 * bytes.len(), |i: int| hex_bytes_of(bytes)[i] as char)
}

/// Renders bytes as a lowercase hexadecimal string.
pub fn to_hex_string(data: &[u8]) -> (r: String)
    ensures
        r@ == hex_chars_of(data@),
{
    let mut out: Vec<u8> = Vec::new();
    let mut i: usize = 0;
    while i < data.len()
        invariant
            i <= data@.len(),
            out@.len() == 2 * i,
            forall|j: int| 0 <= j < out@.len() ==> out@[j] == hex_bytes_of(data@)[j],
            forall|j: int| 0 <= j < out@.len() ==> out@[j] < 128,
        decreases data@.len() - i,
    {
        let b = data[i];
        let hi = b >> 4;
        let lo = b & 15;
        proof {
            assert(b >> 4 < 16 && b & 15 < 16) by (bit_vector);
        }
        let hb: u8 = if hi < 10 {
            48 + hi
        } else {
            87 + hi
        };
        let lb: u8 = if lo < 10 {
            48 + lo
        } else {
            87 + lo
        };
        proof {
            assert(b >> 4 < 16 && b & 15 < 16) by (bit_vector);
        }
        out.push(hb);
        out.push(lb);
        i = i + 1;
        proof {
            assert((2 * i - 2) % 2 == 0 && (2 * i - 1) % 2 == 1);
            assert((2 * i - 2) / 2 == i - 1 && (2 * i - 1) / 2 == i - 1);
        }
    }
    let ghost outv = out@;
    match bytes_to_string(out) {
        Some(s) => {
            assert(s@ =~= hex_chars_of(data@));
            s
        },
        None => {
            // ASCII bytes are always valid UTF-8, so this branch is dead.
            proof {
                lemma_ascii_valid_utf8(outv);
            }
            String::new()
        },
    }
}

/// The nibble a hexadecimal digit character denotes.
pub open spec fn hex_char_val(c: char) -> int {
    if 48 <= c as int <= 57 {
        c as int - 48
    } else if 97 <= c as int <= 102 {
        c as int - 87
    } else {
        c as int - 55
    }
}

pub open spec fn is_hex_char(c: char) -> bool {
    (48 <= c as int <= 57) || (97 <= c as int <= 102) || (65 <= c as int <= 70)
}

/// The bytes an even-length hexadecimal string denotes, or nothing if a
/// character is not a hexadecimal digit or the length is odd.
pub open spec fn spec_hex_decode(s: Seq<char>) -> Option<Seq<u8>> {
    if s.len() % 2 == 0 && (forall|i: int| 0 <= i < s.len() ==> is_hex_char(#[trigger] s[i])) {
        Some(
            Seq::new(
                s.len() / 2,
                |i: int| (hex_char_val(s[2 * i]) * 16 + hex_char_val(s[2 * i + 1])) as u8,
            ),
        )
    } else {
        None
    }
}

/// A torrent description and its 20-byte info identity, kept as a
/// lowercase hexadecimal string.
#[derive(Debug, PartialEq, Eq, PartialOrd, Ord, Hash)]
pub struct Torrent {
    pub announce_url: String,
    pub info: Info,
    pub info_hash: String,
}

#[derive(Debug, PartialEq)]
pub enum FromTorrentError {
    MissingAnnounce,
    MissingInfo,
    FromInfoError(FromInfoError),
    InfoHashError,
    NotADict,
}

/// The announce URL and info fields gathered while walking a torrent
/// dictionary in entry order.
pub open spec fn spec_torrent_fold(
    entries: Seq<(Seq<u8>, BValue)>,
    announce: Seq<char>,
    info: Option<(int, Seq<char>, int, Seq<u8>)>,
) -> Result<(Seq<char>, Option<(int, Seq<char>, int, Seq<u8>)>), FromTorrentError>
    decreases entries.len(),
{
    if entries.len() == 0 {
        Ok((announce, info))
    } else {
        let k = entries[0].0;
        let v = entries[0].1;
        let rest = entries.drop_first();
        if k == key_announce() {
            match v {
                BValue::Str(s) => if valid_utf8(s) {
                    spec_torrent_fold(rest, decode_utf8(s), info)
                } else {
                    Err(FromTorrentError::MissingAnnounce)
                },
                _ => Err(FromTorrentError::MissingAnnounce),
            }
        } else if k == key_info() {
            match spec_info_from(v) {
                Ok(f) => spec_torrent_fold(rest, announce, Some(f)),
                Err(e) => Err(FromTorrentError::FromInfoError(e)),
            }
        } else {
            spec_torrent_fold(rest, announce, info)
        }
    }
}

/// What reading a torrent value yields before identity hashing: the
/// announce URL and the info fields, or the error.
pub open spec fn spec_torrent_from(v: BValue) -> Result<
    (Seq<char>, (int, Seq<char>, int, Seq<u8>)),
    FromTorrentError,
> {
    match v {
        BValue::Dict(entries) => match spec_torrent_fold(entries, Seq::empty(), None) {
            Ok((announce, info)) => if announce.len() == 0 {
                Err(FromTorrentError::MissingAnnounce)
            } else {
                match info {
                    Some(f) => Ok((announce, f)),
                    None => Err(FromTorrentError::MissingInfo),
                }
            },
            Err(e) => Err(e),
        },
        _ => Err(FromTorrentError::NotADict),
    }
}

impl Torrent {
    /// Reads a torrent from its bencoded dictionary and computes the info
    /// identity: the SHA-1 of the canonical bencoding of `info`, in
    /// lowercase hexadecimal.
    pub fn from(bencode: Bencode) -> (r: Result<Torrent, FromTorrentError>)
        ensures
            match r {
                Ok(t) => spec_torrent_from(bview(bencode)) matches Ok(p) && t.announce_url@ == p.0
                    && (t.info.length as int, t.info.name@, t.info.piece_length as int,
                t.info.pieces@) == p.1 && t.info_hash@ == hex_chars_of(
                    sha1_of(spec_encode(t.info.spec_bencode())),
                ),
                Err(e) => spec_torrent_from(bview(bencode)) == Err::<
                    (Seq<char>, (int, Seq<char>, int, Seq<u8>)),
                    _,
                >(e),
            },
    {
        let d = match &bencode {
            Bencode::BDict(d) => d,
            _ => {
                return Err(FromTorrentError::NotADict);
            },
        };
        let ghost es = bpair_views(d@);
        proof {
            lemma_bpair_views_len(d@);
            assert(es.skip(0) =~= es);
        }
        let lit_announce: [u8; 8] = [97, 110, 110, 111, 117, 110, 99, 101];
        let lit_info: [u8; 4] = [105, 110, 102, 111];
        proof {
            assert(lit_announce@ =~= key_announce());
            assert(lit_info@ =~= key_info());
        }
        let mut announce_url = String::new();
        let mut info: Option<Info> = None;
        let mut i: usize = 0;
        while i < d.len()
            invariant
                i <= d@.len(),
                es == bpair_views(d@),
                es.len() == d@.len(),
                bencode == Bencode::BDict(*d),
                lit_announce@ == key_announce(),
                lit_info@ == key_info(),
                spec_torrent_fold(es, Seq::empty(), None) == spec_torrent_fold(
                    es.skip(i as int),
                    announce_url@,
                    match info {
                        Some(f) => Some(
                            (f.length as int, f.name@, f.piece_length as int, f.pieces@),
                        ),
                        None => None,
                    },
                ),
            decreases d@.len() - i,
        {
            proof {
                lemma_bpair_views_index(d@, i as int);
                assert(es.skip(i as int)[0] == es[i as int]);
                assert(es.skip(i as int).drop_first() =~= es.skip(i + 1));
            }
            let k = &d[i].0;
            let v = &d[i].1;
            if eq_bytes(k.as_slice(), lit_announce.as_slice()) {
                match v {
                    Bencode::BString(s) => {
                        match bytes_to_string(copy_bytes(s.as_slice())) {
                            Some(u) => {
                                announce_url = u;
                            },
                            None => {
                                return Err(FromTorrentError::MissingAnnounce);
                            },
                        }
                    },
                    _ => {
                        return Err(FromTorrentError::MissingAnnounce);
                    },
                }
            } else if eq_bytes(k.as_slice(), lit_info.as_slice()) {
                match Info::from(v) {
                    Ok(parsed) => {
                        info = Some(parsed);
                    },
                    Err(e) => {
                        return Err(FromTorrentError::FromInfoError(e));
                    },
                }
            }
            i = i + 1;
        }
        proof {
            assert(es.skip(es.len() as int).len() == 0);
        }
        if announce_url.as_str().unicode_len() == 0 {
            return Err(FromTorrentError::MissingAnnounce);
        }
        let info = match info {
            Some(x) => x,
            None => {
                return Err(FromTorrentError::MissingInfo);
            },
        };
        let info_hash = match Torrent::create_info_hash(&info) {
            Ok(h) => h,
            Err(e) => {
                // create_info_hash never fails; the match keeps the Result shape
                return Err(e);
            },
        };
        Ok(Torrent { announce_url, info, info_hash })
    }

    /// The info identity: SHA-1 of the canonical bencoding of `info`,
    /// rendered in lowercase hexadecimal. Never fails.
    pub fn create_info_hash(info: &Info) -> (r: Result<String, FromTorrentError>)
        ensures
            r matches Ok(s) && s@ == hex_chars_of(sha1_of(spec_encode(info.spec_bencode()))),
    {
        proof {
            crate::info::lemma_info_bval_wf(
                info.length as int,
                info.name@,
                info.piece_length as int,
                info.pieces@,
            );
        }
        let bencoded_info = Bencode::encode(info);
        let hash = sha1_digest(bencoded_info.as_slice());
        Ok(to_hex_string(hash.as_slice()))
    }

    /// The info hash as its 20 raw bytes, parsed back from hexadecimal.
    pub fn get_info_hash_as_bytes(&self) -> (r: Result<Vec<u8>, FromTorrentError>)
        ensures
            match r {
                Ok(bytes) => spec_hex_decode(self.info_hash@) == Some(bytes@),
                Err(_) => spec_hex_decode(self.info_hash@) is None,
            },
    {
        Torrent::decode_hex(self.info_hash.as_str())
    }

    /// Parses a hexadecimal string into bytes, two digits per byte.
    fn decode_hex(s: &str) -> (r: Result<Vec<u8>, FromTorrentError>)
        ensures
            match r {
                Ok(bytes) => spec_hex_decode(s@) == Some(bytes@),
                Err(_) => spec_hex_decode(s@) is None,
            },
    {
        let len = s.unicode_len();
        if len % 2 != 0 {
            return Err(FromTorrentError::InfoHashError);
        }
        let mut out: Vec<u8> = Vec::new();
        let mut i: usize = 0;
        while i < len
            invariant
                i <= len,
                len == s@.len(),
                i % 2 == 0,
                len % 2 == 0,
                out@.len() == i / 2,
                forall|j: int| 0 <= j < i ==> is_hex_char(#[trigger] s@[j]),
                forall|j: int|
                    0 <= j < out@.len() ==> out@[j] == (hex_char_val(s@[2 * j]) * 16
                        + hex_char_val(s@[2 * j + 1])) as u8,
            decreases len - i,
        {
            let c1 = s.get_char(i);
            let c2 = s.get_char(i + 1);
            let v1 = match Torrent::hex_nibble(c1) {
                Some(v) => v,
                None => {
                    return Err(FromTorrentError::InfoHashError);
                },
            };
            let v2 = match Torrent::hex_nibble(c2) {
                Some(v) => v,
                None => {
                    return Err(FromTorrentError::InfoHashError);
                },
            };
            out.push(v1 * 16 + v2);
            i = i + 2;
        }
        proof {
            let decoded = spec_hex_decode(s@);
            assert(decoded matches Some(b) && b =~= out@);
        }
        Ok(out)
    }

    /// The value of one hexadecimal digit character.
    fn hex_nibble(c: char) -> (r: Option<u8>)
        ensures
            r is Some <==> is_hex_char(c),
            r matches Some(v) ==> v as int == hex_char_val(c) && v < 16,
    {
        let u = c as u32;
        if 48 <= u && u <= 57 {
            Some((u - 48) as u8)
        } else if 97 <= u && u <= 102 {
            Some((u - 87) as u8)
        } else if 65 <= u && u <= 70 {
            Some((u - 55) as u8)
        } else {
            None
        }
    }

    /// The name of the torrent.
    pub fn name(&self) -> (r: String)
        ensures
            r@ == self.info.name@,
    {
        self.info.name.clone()
    }

    /// The piece size of the torrent.
    pub fn piece_length(&self) -> (r: u32)
        ensures
            r == self.info.piece_length as u32,
    {
        #[verifier::truncate] (self.info.piece_length as u32)
    }

    /// The total byte length of the torrent.
    pub fn length(&self) -> (r: u32)
        ensures
            r == self.info.length as u32,
    {
        #[verifier::truncate] (self.info.length as u32)
    }

    /// The number of pieces: the length divided by the piece length,
    /// rounded up.
    pub fn total_pieces(&self) -> (r: u32)
        requires
            0 < self.info.piece_length <= u32::MAX,
            0 <= self.info.length <= u32::MAX,
        ensures
            r == (self.info.length + self.info.piece_length - 1) as int / self.info.piece_length as int,
    {
        let length = self.info.length as u32;
        let piece_length = self.info.piece_length as u32;
        let r64 = (length as u64 + piece_length as u64 - 1) / piece_length as u64;
        proof {
            assert((length + piece_length - 1) / (piece_length as int) <= length)
                by (nonlinear_arith)
                requires
                    piece_length >= 1,
            ;
        }
        r64 as u32
    }

    /// The size of the trailing piece: the length modulo the piece
    /// length (zero when the length divides evenly).
    pub fn last_piece_size(&self) -> (r: u32)
        requires
            0 < self.info.piece_length <= u32::MAX,
            0 <= self.info.length <= u32::MAX,
        ensures
            r == self.info.length as int % self.info.piece_length as int,
    {
        (self.info.length as u32) % (self.info.piece_length as u32)
    }

    /// The info identity in lowercase hexadecimal.
    pub fn info_hash(&self) -> (r: String)
        ensures
            r@ == self.info_hash@,
    {
        self.info_hash.clone()
    }
}

impl Clone for Torrent {
    /// Field-for-field copy.
    fn clone(&self) -> (r: Torrent)
        ensures
            r.announce_url@ == self.announce_url@,
            r.info.length == self.info.length,
            r.info.name@ == self.info.name@,
            r.info.piece_length == self.info.piece_length,
            r.info.pieces@ == self.info.pieces@,
            r.info_hash@ == self.info_hash@,
    {
        Torrent {
            announce_url: self.announce_url.clone(),
            info: self.info.clone(),
            info_hash: self.info_hash.clone(),
        }
    }
}

/// Parses a hexadecimal character string into bytes, two digits per
/// byte; an odd length or a non-digit yields nothing.
pub fn hex_str_to_bytes(s: &str) -> (r: Option<Vec<u8>>)
    ensures
        r matches Some(bytes) ==> spec_hex_decode(s@) == Some(bytes@),
        r is None ==> spec_hex_decode(s@) is None,
{
    match Torrent::decode_hex(s) {
        Ok(b) => Some(b),
        Err(_) => None,
    }
}

} // verus!
