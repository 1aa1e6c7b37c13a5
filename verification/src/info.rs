//! The `info` part of a torrent description: name, length, piece length
//! and the concatenated 20-byte piece hashes.

use vstd::prelude::*;
use vstd::string::StrSliceExecFns;
use vstd::utf8::{decode_utf8, encode_utf8, valid_utf8};
use crate::bencode::{
    BValue, Bencode, ToBencode, bpair_views, bval_wf, bview, lemma_bpair_views_index,
    lemma_bpair_views_len, lex_lt,
};
use crate::byte_util::{bytes_to_string, copy_bytes, eq_bytes};

verus! {

pub open spec fn key_length() -> Seq<u8> {
    seq![108u8, 101u8, 110u8, 103u8, 116u8, 104u8]
}

pub open spec fn key_name() -> Seq<u8> {
    seq![110u8, 97u8, 109u8, 101u8]
}

pub open spec fn key_piece_length() -> Seq<u8> {
    seq![112u8, 105u8, 101u8, 99u8, 101u8, 32u8, 108u8, 101u8, 110u8, 103u8, 116u8, 104u8]
}

pub open spec fn key_pieces() -> Seq<u8> {
    seq![112u8, 105u8, 101u8, 99u8, 101u8, 115u8]
}

pub open spec fn key_files() -> Seq<u8> {
    seq![102u8, 105u8, 108u8, 101u8, 115u8]
}

/// Typed view of a torrent's `info` dictionary.
#[derive(Debug, PartialEq, Eq, PartialOrd, Ord, Hash)]
pub struct Info {
    pub length: i64,
    pub name: String,
    pub piece_length: i64,
    pub pieces: Vec<u8>,
}

#[derive(Debug, PartialEq)]
pub enum FromInfoError {
    MissingLength,
    MissingName,
    MissingPieceLength,
    MissingPieces,
    NotADict,
    MultipleFilesNotSupported,
}

/// The fields gathered while walking an info dictionary in entry order:
/// length, name, piece length, pieces.
pub open spec fn spec_info_fold(
    entries: Seq<(Seq<u8>, BValue)>,
    acc: (int, Seq<char>, int, Seq<u8>),
) -> Result<(int, Seq<char>, int, Seq<u8>), FromInfoError>
    decreases entries.len(),
{
    if entries.len() == 0 {
        Ok(acc)
    } else {
        let k = entries[0].0;
        let v = entries[0].1;
        let rest = entries.drop_first();
        if k == key_name() {
            match v {
                BValue::Str(s) => if valid_utf8(s) {
                    spec_info_fold(rest, (acc.0, decode_utf8(s), acc.2, acc.3))
                } else {
                    Err(FromInfoError::MissingName)
                },
                _ => Err(FromInfoError::MissingName),
            }
        } else if k == key_length() {
            match v {
                BValue::Int(n) => spec_info_fold(rest, (n, acc.1, acc.2, acc.3)),
                _ => Err(FromInfoError::MissingLength),
            }
        } else if k == key_piece_length() {
            match v {
                BValue::Int(n) => spec_info_fold(rest, (acc.0, acc.1, n, acc.3)),
                _ => Err(FromInfoError::MissingPieceLength),
            }
        } else if k == key_pieces() {
            match v {
                BValue::Str(s) => spec_info_fold(rest, (acc.0, acc.1, acc.2, s)),
                _ => Err(FromInfoError::MissingPieces),
            }
        } else if k == key_files() {
            Err(FromInfoError::MultipleFilesNotSupported)
        } else {
            spec_info_fold(rest, acc)
        }
    }
}

/// What reading an `info` value yields: its four fields, or the error.
pub open spec fn spec_info_from(v: BValue) -> Result<
    (int, Seq<char>, int, Seq<u8>),
    FromInfoError,
> {
    match v {
        BValue::Dict(entries) => spec_info_fold(entries, (0, Seq::empty(), 0, Seq::empty())),
        _ => Err(FromInfoError::NotADict),
    }
}

impl Info {
    /// Reads an `Info` from a bencoded dictionary. Missing fields default
    /// to zero or empty; a `files` key is rejected, as are fields of the
    /// wrong type.
    pub fn from(bencode: &Bencode) -> (r: Result<Info, FromInfoError>)
        ensures
            match r {
                Ok(info) => spec_info_from(bview(*bencode)) == Ok::<_, FromInfoError>(
                    (info.length as int, info.name@, info.piece_length as int, info.pieces@),
                ),
                Err(e) => spec_info_from(bview(*bencode)) == Err::<
                    (int, Seq<char>, int, Seq<u8>),
                    _,
                >(e),
            },
    {
        let d = match bencode {
            Bencode::BDict(d) => d,
            _ => {
                return Err(FromInfoError::NotADict);
            },
        };
        let ghost es = bpair_views(d@);
        proof {
            lemma_bpair_views_len(d@);
            assert(es.skip(0) =~= es);
        }
        let mut name = String::new();
        let mut length: i64 = 0;
        let mut piece_length: i64 = 0;
        let mut pieces: Vec<u8> = Vec::new();
        let lit_name: [u8; 4] = [110, 97, 109, 101];
        let lit_length: [u8; 6] = [108, 101, 110, 103, 116, 104];
        let lit_piece_length: [u8; 12] = [112, 105, 101, 99, 101, 32, 108, 101, 110, 103, 116, 104];
        let lit_pieces: [u8; 6] = [112, 105, 101, 99, 101, 115];
        let lit_files: [u8; 5] = [102, 105, 108, 101, 115];
        proof {
            assert(lit_name@ =~= key_name());
            assert(lit_length@ =~= key_length());
            assert(lit_piece_length@ =~= key_piece_length());
            assert(lit_pieces@ =~= key_pieces());
            assert(lit_files@ =~= key_files());
        }
        let mut i: usize = 0;
        while i < d.len()
            invariant
                i <= d@.len(),
                es == bpair_views(d@),
                es.len() == d@.len(),
                *bencode == Bencode::BDict(*d),
                lit_name@ == key_name(),
                lit_length@ == key_length(),
                lit_piece_length@ == key_piece_length(),
                lit_pieces@ == key_pieces(),
                lit_files@ == key_files(),
                spec_info_fold(es, (0, Seq::empty(), 0, Seq::empty())) == spec_info_fold(
                    es.skip(i as int),
                    (length as int, name@, piece_length as int, pieces@),
                ),
            decreases d@.len() - i,
        {
            proof {
                lemma_bpair_views_index(d@, i as int);
                assert(es.skip(i as int)[0] == es[i as int]);
                assert(es.skip(i as int).drop_first() =~= es.skip(i + 1));
            }
            let k = &d[i].0;
            let v = &d[i].1;
            if eq_bytes(k.as_slice(), lit_name.as_slice()) {
                match v {
                    Bencode::BString(s) => {
                        match bytes_to_string(copy_bytes(s.as_slice())) {
                            Some(n) => {
                                name = n;
                            },
                            None => {
                                return Err(FromInfoError::MissingName);
                            },
                        }
                    },
                    _ => {
                        return Err(FromInfoError::MissingName);
                    },
                }
            } else if eq_bytes(k.as_slice(), lit_length.as_slice()) {
                match v {
                    Bencode::BNumber(n) => {
                        length = *n;
                    },
                    _ => {
                        return Err(FromInfoError::MissingLength);
                    },
                }
            } else if eq_bytes(k.as_slice(), lit_piece_length.as_slice()) {
                match v {
                    Bencode::BNumber(n) => {
                        piece_length = *n;
                    },
                    _ => {
                        return Err(FromInfoError::MissingPieceLength);
                    },
                }
            } else if eq_bytes(k.as_slice(), lit_pieces.as_slice()) {
                match v {
                    Bencode::BString(s) => {
                        pieces = copy_bytes(s.as_slice());
                    },
                    _ => {
                        return Err(FromInfoError::MissingPieces);
                    },
                }
            } else if eq_bytes(k.as_slice(), lit_files.as_slice()) {
                return Err(FromInfoError::MultipleFilesNotSupported);
            }
            i = i + 1;
        }
        proof {
            assert(es.skip(es.len() as int).len() == 0);
        }
        Ok(Info { length, name, piece_length, pieces })
    }
}

impl Clone for Info {
    /// Field-for-field copy.
    fn clone(&self) -> (r: Info)
        ensures
            r.length == self.length,
            r.name@ == self.name@,
            r.piece_length == self.piece_length,
            r.pieces@ == self.pieces@,
    {
        Info {
            length: self.length,
            name: self.name.clone(),
            piece_length: self.piece_length,
            pieces: copy_bytes(self.pieces.as_slice()),
        }
    }
}

/// The canonical dictionary form of an `Info`, keys already in sorted
/// byte order.
pub open spec fn info_bval(length: int, name: Seq<char>, piece_length: int, pieces: Seq<u8>) -> BValue {
    BValue::Dict(
        seq![
            (key_length(), BValue::Int(length)),
            (key_name(), BValue::Str(encode_utf8(name))),
            (key_piece_length(), BValue::Int(piece_length)),
            (key_pieces(), BValue::Str(pieces)),
        ],
    )
}

impl ToBencode for Info {
    open spec fn spec_bencode(&self) -> BValue {
        info_bval(self.length as int, self.name@, self.piece_length as int, self.pieces@)
    }

    fn to_bencode(&self) -> (r: Bencode) {
        let mut pairs: Vec<(Vec<u8>, Bencode)> = Vec::new();
        let lit_length: [u8; 6] = [108, 101, 110, 103, 116, 104];
        let lit_name: [u8; 4] = [110, 97, 109, 101];
        let lit_piece_length: [u8; 12] = [112, 105, 101, 99, 101, 32, 108, 101, 110, 103, 116, 104];
        let lit_pieces: [u8; 6] = [112, 105, 101, 99, 101, 115];
        pairs.push((copy_bytes(lit_length.as_slice()), Bencode::BNumber(self.length)));
        pairs.push(
            (copy_bytes(lit_name.as_slice()), Bencode::BString(self.name.as_str().as_bytes_vec())),
        );
        pairs.push(
            (copy_bytes(lit_piece_length.as_slice()), Bencode::BNumber(self.piece_length)),
        );
        pairs.push(
            (copy_bytes(lit_pieces.as_slice()), Bencode::BString(copy_bytes(self.pieces.as_slice()))),
        );
        proof {
            lemma_bpair_views_len(pairs@);
            assert forall|j: int| 0 <= j < pairs@.len() implies #[trigger] bpair_views(pairs@)[j]
                == (pairs@[j].0@, bview(pairs@[j].1)) by {
                lemma_bpair_views_index(pairs@, j);
            }
            assert(lit_length@ =~= key_length());
            assert(lit_name@ =~= key_name());
            assert(lit_piece_length@ =~= key_piece_length());
            assert(lit_pieces@ =~= key_pieces());
            assert(bpair_views(pairs@) =~= self.spec_bencode()->Dict_0);
        }
        Bencode::BDict(pairs)
    }
}

/// The canonical info dictionary is well-formed: its four keys stand in
/// ascending byte order and its values are in range.
pub proof fn lemma_info_bval_wf(length: int, name: Seq<char>, piece_length: int, pieces: Seq<u8>)
    requires
        i64::MIN <= length <= i64::MAX,
        i64::MIN <= piece_length <= i64::MAX,
    ensures
        bval_wf(info_bval(length, name, piece_length, pieces)),
{
    let d = info_bval(length, name, piece_length, pieces)->Dict_0;
    assert(lex_lt(key_length(), key_name()));
    assert(lex_lt(key_length(), key_piece_length()));
    assert(lex_lt(key_length(), key_pieces()));
    assert(lex_lt(key_name(), key_piece_length()));
    assert(lex_lt(key_name(), key_pieces()));
    assert(lex_lt(key_piece_length(), key_pieces())) by {
        reveal_with_fuel(lex_lt, 7);
    }
    assert forall|i: int, j: int| 0 <= i < j < d.len() implies lex_lt(
        (#[trigger] d[i]).0,
        (#[trigger] d[j]).0,
    ) by {
    }
    assert forall|i: int| 0 <= i < d.len() implies bval_wf((#[trigger] d[i]).1) by {
    }
}

} // verus!
