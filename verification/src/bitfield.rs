//! The piece bitfield of the peer wire protocol: piece 0 lives in the
//! most significant bit of byte 0.

use vstd::prelude::*;
use crate::byte_util::copy_bytes;
use crate::status::PieceStatus;

verus! {

/// Which pieces a peer holds, one bit per piece.
#[derive(Debug)]
pub struct Bitfield {
    pub bitfield: Vec<u8>,
}

impl Clone for Bitfield {
    /// Copy with the same bits.
    fn clone(&self) -> (r: Bitfield)
        ensures
            r@ == self@,
    {
        Bitfield { bitfield: copy_bytes(self.bitfield.as_slice()) }
    }
}

impl View for Bitfield {
    type V = Seq<u8>;

    open spec fn view(&self) -> Seq<u8> {
        self.bitfield@
    }
}

/// Bit `i` of the vector, with piece 0 in the most significant bit of
/// byte 0.
pub open spec fn bit_at(bytes: Seq<u8>, i: int) -> bool
    recommends
        0 <= i < 8 * bytes.len(),
{
    (bytes[i / 8] >> ((7 - (i % 8)) as u8)) & 1 == 1
}

/// Setting bit `p` of a byte touches that bit and no other.
proof fn lemma_byte_bit_set(b: u8, p: u8, q: u8)
    requires
        p < 8,
        q < 8,
    ensures
        p == q ==> ((b | (1u8 << ((7 - p) as u8))) >> ((7 - q) as u8)) & 1 == 1,
        p == q ==> ((b & !(1u8 << ((7 - p) as u8))) >> ((7 - q) as u8)) & 1 == 0,
        p != q ==> ((b | (1u8 << ((7 - p) as u8))) >> ((7 - q) as u8)) & 1 == (b >> ((7 - q)
            as u8)) & 1,
        p != q ==> ((b & !(1u8 << ((7 - p) as u8))) >> ((7 - q) as u8)) & 1 == (b >> ((7 - q)
            as u8)) & 1,
{
    assert(p == q ==> ((b | (1u8 << ((7 - p) as u8))) >> ((7 - q) as u8)) & 1 == 1)
        by (bit_vector)
        requires
            p < 8 && q < 8,
    ;
    assert(p == q ==> ((b & !(1u8 << ((7 - p) as u8))) >> ((7 - q) as u8)) & 1 == 0)
        by (bit_vector)
        requires
            p < 8 && q < 8,
    ;
    assert(p != q ==> ((b | (1u8 << ((7 - p) as u8))) >> ((7 - q) as u8)) & 1 == (b >> ((7 - q)
        as u8)) & 1)
        by (bit_vector)
        requires
            p < 8 && q < 8,
    ;
    assert(p != q ==> ((b & !(1u8 << ((7 - p) as u8))) >> ((7 - q) as u8)) & 1 == (b >> ((7 - q)
        as u8)) & 1)
        by (bit_vector)
        requires
            p < 8 && q < 8,
    ;
}

/// Testing via a mask equals testing via a shift.
proof fn lemma_byte_bit_test(b: u8, q: u8)
    requires
        q < 8,
    ensures
        ((b & (1u8 << ((7 - q) as u8))) != 0) == ((b >> ((7 - q) as u8)) & 1 == 1),
{
    assert(((b & (1u8 << ((7 - q) as u8))) != 0) == ((b >> ((7 - q) as u8)) & 1 == 1))
        by (bit_vector)
        requires
            q < 8,
    ;
}

impl Bitfield {
    pub fn new(bitfield: Vec<u8>) -> (r: Bitfield)
        ensures
            r@ == bitfield@,
    {
        Bitfield { bitfield }
    }

    /// Whether the bitfield has the piece with the given index.
    pub fn has_piece(&self, index: u32) -> (r: bool)
        requires
            index as int / 8 < self@.len(),
        ensures
            r == bit_at(self@, index as int),
    {
        let byte_index = (index / 8) as usize;
        let byte = self.bitfield[byte_index];
        let bit_index: u8 = (7 - (index % 8)) as u8;
        let bit = (byte >> bit_index) & 1;
        proof {
            assert(((byte >> bit_index) & 1 == 0) || ((byte >> bit_index) & 1 == 1))
                by (bit_vector);
        }
        bit != 0
    }

    /// Whether every bit of the bitfield is set.
    pub fn is_complete(&self) -> (r: bool)
        ensures
            r == (forall|i: int| 0 <= i < self@.len() ==> self@[i] == 255),
    {
        let mut i: usize = 0;
        while i < self.bitfield.len()
            invariant
                i <= self@.len(),
                forall|j: int| 0 <= j < i ==> self@[j] == 255,
            decreases self@.len() - i,
        {
            if self.bitfield[i] != 255 {
                return false;
            }
            i = i + 1;
        }
        true
    }

    /// The bitfield of a torrent's piece table: bit `i` is set exactly
    /// when piece `i` is `Finished`; trailing bits of the last byte are
    /// zero.
    pub fn from(pieces_status: &Vec<PieceStatus>) -> (r: Bitfield)
        requires
            pieces_status@.len() + 7 <= usize::MAX,
        ensures
            r@.len() == (pieces_status@.len() + 7) / 8,
            forall|i: int|
                0 <= i < pieces_status@.len() ==> bit_at(r@, i) == (pieces_status@[i]
                    is Finished),
            forall|i: int| pieces_status@.len() <= i < 8 * r@.len() ==> !bit_at(r@, i),
    {
        let bytes_count = (pieces_status.len() + 7) / 8;
        let mut bitfield: Vec<u8> = vec![0u8; bytes_count];
        assert(forall|i: int| 0 <= i < 8 * bitfield@.len() ==> !bit_at(bitfield@, i)) by {
            assert(forall|b: u8| (0u8 >> b) & 1 == 0) by (bit_vector);
        }
        let mut piece_index: usize = 0;
        while piece_index < pieces_status.len()
            invariant
                piece_index <= pieces_status@.len(),
                bitfield@.len() == (pieces_status@.len() + 7) / 8,
                forall|i: int|
                    0 <= i < piece_index ==> bit_at(bitfield@, i) == (pieces_status@[i]
                        is Finished),
                forall|i: int| piece_index <= i < 8 * bitfield@.len() ==> !bit_at(bitfield@, i),
            decreases pieces_status@.len() - piece_index,
        {
            let is_finished = match pieces_status[piece_index] {
                PieceStatus::Finished => true,
                _ => false,
            };
            if is_finished {
                let byte_index = piece_index / 8;
                let byte = bitfield[byte_index];
                let bit_index: u8 = (7 - (piece_index % 8)) as u8;
                let ghost prev = bitfield@;
                bitfield[byte_index] = byte | (1u8 << bit_index);
                proof {
                    assert forall|i: int| 0 <= i < 8 * bitfield@.len() implies bit_at(
                        bitfield@,
                        i,
                    ) == if i == piece_index {
                        true
                    } else {
                        bit_at(prev, i)
                    } by {
                        if i / 8 == byte_index {
                            lemma_byte_bit_set(
                                prev[byte_index as int],
                                (piece_index % 8) as u8,
                                (i % 8) as u8,
                            );
                        }
                    }
                }
            }
            piece_index = piece_index + 1;
        }
        Bitfield::new(bitfield)
    }

    /// The ascending list of indices at which the two equally sized
    /// bitfields differ.
    pub fn diff(&self, other: &Bitfield) -> (r: Vec<usize>)
        requires
            self@.len() == other@.len(),
            8 * self@.len() <= usize::MAX,
        ensures
            forall|m: int, n: int| 0 <= m < n < r@.len() ==> r@[m] < r@[n],
            forall|m: int|
                0 <= m < r@.len() ==> r@[m] < 8 * self@.len() && bit_at(self@, #[trigger] r@[m] as int)
                    != bit_at(other@, r@[m] as int),
            forall|j: int|
                0 <= j < 8 * self@.len() && bit_at(self@, j) != bit_at(other@, j)
                    ==> exists|m: int| 0 <= m < r@.len() && r@[m] == j,
    {
        let mut diff: Vec<usize> = Vec::new();
        let mut index: usize = 0;
        while index < self.bitfield.len()
            invariant
                index <= self@.len(),
                self@.len() == other@.len(),
                8 * self@.len() <= usize::MAX,
                forall|m: int, n: int| 0 <= m < n < diff@.len() ==> diff@[m] < diff@[n],
                forall|m: int|
                    0 <= m < diff@.len() ==> diff@[m] < 8 * index && bit_at(
                        self@,
                        #[trigger] diff@[m] as int,
                    ) != bit_at(other@, diff@[m] as int),
                forall|j: int|
                    0 <= j < 8 * index && bit_at(self@, j) != bit_at(other@, j) ==> exists|m: int|
                        0 <= m < diff@.len() && diff@[m] == j,
            decreases self@.len() - index,
        {
            let byte = self.bitfield[index];
            let other_byte = other.bitfield[index];
            let mut bit_index: usize = 0;
            while bit_index < 8
                invariant
                    bit_index <= 8,
                    index < self@.len(),
                    self@.len() == other@.len(),
                    8 * self@.len() <= usize::MAX,
                    byte == self@[index as int],
                    other_byte == other@[index as int],
                    forall|m: int, n: int| 0 <= m < n < diff@.len() ==> diff@[m] < diff@[n],
                    forall|m: int|
                        0 <= m < diff@.len() ==> diff@[m] < 8 * index + bit_index && bit_at(
                            self@,
                            #[trigger] diff@[m] as int,
                        ) != bit_at(other@, diff@[m] as int),
                    forall|j: int|
                        0 <= j < 8 * index + bit_index && bit_at(self@, j) != bit_at(other@, j)
                            ==> exists|m: int| 0 <= m < diff@.len() && diff@[m] == j,
                decreases 8 - bit_index,
            {
                let shift: u8 = (7 - bit_index) as u8;
                let bit = 1u8 << shift;
                let our_bit = (byte & bit) != 0;
                let other_bit = (other_byte & bit) != 0;
                proof {
                    lemma_byte_bit_test(byte, bit_index as u8);
                    lemma_byte_bit_test(other_byte, bit_index as u8);
                    assert((8 * index + bit_index) / 8 == index as int);
                    assert((8 * index + bit_index) % 8 == bit_index as int);
                }
                if our_bit != other_bit {
                    let j = index * 8 + bit_index;
                    let ghost prevd = diff@;
                    diff.push(j);
                    proof {
                        assert forall|jj: int|
                            0 <= jj < 8 * index + bit_index + 1 && bit_at(self@, jj) != bit_at(
                                other@,
                                jj,
                            ) implies exists|m: int|
                            0 <= m < diff@.len() && diff@[m] == jj by {
                            if jj == j {
                                assert(diff@[diff@.len() - 1] == jj);
                            } else {
                                let m = choose|m: int| 0 <= m < prevd.len() && prevd[m] == jj;
                                assert(diff@[m] == jj);
                            }
                        }
                    }
                }
                bit_index = bit_index + 1;
            }
            index = index + 1;
        }
        diff
    }

    /// Sets or clears one bit, leaving every other bit unchanged.
    pub fn set_bit(&mut self, index: u32, value: bool)
        requires
            index as int / 8 < old(self)@.len(),
        ensures
            final(self)@.len() == old(self)@.len(),
            forall|i: int|
                0 <= i < 8 * old(self)@.len() ==> bit_at(final(self)@, i) == if i == index as int {
                    value
                } else {
                    bit_at(old(self)@, i)
                },
    {
        let byte_index = (index / 8) as usize;
        let byte = self.bitfield[byte_index];
        let bit_index: u8 = (7 - (index % 8)) as u8;
        let bit = 1u8 << bit_index;
        let ghost prev = self@;
        if value {
            self.bitfield[byte_index] = byte | bit;
        } else {
            self.bitfield[byte_index] = byte & !bit;
        }
        proof {
            assert forall|i: int| 0 <= i < 8 * prev.len() implies bit_at(self@, i) == if i
                == index as int {
                value
            } else {
                bit_at(prev, i)
            } by {
                if i / 8 == byte_index {
                    lemma_byte_bit_set(prev[byte_index as int], (index % 8) as u8, (i % 8) as u8);
                }
            }
        }
    }

    /// The raw bytes of the bitfield.
    pub fn get_vec(&self) -> (r: Vec<u8>)
        ensures
            r@ == self@,
    {
        copy_bytes(self.bitfield.as_slice())
    }
}

/// Setting a bit makes exactly that bit readable as set: the update
/// relation of `set_bit` pins the tested bit to the written value.
pub proof fn lemma_set_then_has(before: Seq<u8>, after: Seq<u8>, index: int, value: bool)
    requires
        0 <= index < 8 * before.len(),
        forall|i: int|
            0 <= i < 8 * before.len() ==> bit_at(after, i) == if i == index {
                value
            } else {
                bit_at(before, i)
            },
    ensures
        bit_at(after, index) == value,
{
}

/// The difference of a bitfield with itself is empty: every listed index
/// would have to differ from itself.
pub proof fn lemma_diff_self_empty(a: Seq<u8>, r: Seq<usize>)
    requires
        forall|m: int|
            0 <= m < r.len() ==> (#[trigger] r[m]) < 8 * a.len() && bit_at(a, r[m] as int)
                != bit_at(a, r[m] as int),
    ensures
        r.len() == 0,
{
    if r.len() > 0 {
        let x = r[0];
        assert(bit_at(a, x as int) != bit_at(a, x as int));
    }
}

} // verus!
