//! Percent-encoding of hexadecimal identity strings for tracker query
//! strings, and the matching decoder.

use vstd::prelude::*;
use vstd::string::{StrSliceExecFns, StringExecFns};
use crate::byte_util::bytes_to_string;

verus! {

/// The characters of `s` in groups of two, each group preceded by '%';
/// a trailing odd character forms a group of one.
pub open spec fn percent_groups(s: Seq<char>) -> Seq<char>
    decreases s.len(),
{
    if s.len() == 0 {
        Seq::empty()
    } else {
        let k: int = if s.len() >= 2 {
            2
        } else {
            1
        };
        seq!['%'] + s.take(k) + percent_groups(s.skip(k))
    }
}

/// Percent-encodes a hexadecimal string: every two characters become a
/// `%`-led group. The empty string stays empty.
pub fn encode(hex_string: &str) -> (r: String)
    ensures
        r@ == percent_groups(hex_string@),
{
    let len = hex_string.unicode_len();
    if len == 0 {
        return String::new();
    }
    let mut out = String::new();
    let mut i: usize = 0;
    proof {
        assert(hex_string@.skip(0) =~= hex_string@);
        assert(out@ + percent_groups(hex_string@.skip(0)) =~= percent_groups(hex_string@));
    }
    while i < len
        invariant
            i <= len,
            len == hex_string@.len(),
            percent_groups(hex_string@) == out@ + percent_groups(hex_string@.skip(i as int)),
        decreases len - i,
    {
        let hi = if len - i >= 2 {
            i + 2
        } else {
            len
        };
        let ghost prev = out@;
        out.append("%");
        let part = hex_string.substring_char(i, hi);
        out.append(part);
        proof {
            let s = hex_string@;
            let k: int = hi - i;
            assert(s.skip(i as int).take(k) =~= s.subrange(i as int, hi as int));
            assert(s.skip(i as int).skip(k) =~= s.skip(hi as int));
            reveal_strlit("%");
            assert("%"@ =~= seq!['%']);
            assert(out@ =~= prev + (seq!['%'] + s.skip(i as int).take(k)));
            assert(prev + (seq!['%'] + s.skip(i as int).take(k)) + percent_groups(
                s.skip(hi as int),
            ) =~= prev + (seq!['%'] + s.skip(i as int).take(k) + percent_groups(
                s.skip(i as int).skip(k),
            )));
        }
        i = hi;
    }
    proof {
        assert(hex_string@.skip(len as int).len() == 0);
        assert(out@ =~= out@ + percent_groups(hex_string@.skip(len as int)));
    }
    out
}

/// The percent-decoding the client applies to an encoded identity: each
/// `%`-led pair is kept with letters lowered; any other character is
/// replaced by the hexadecimal of its code.
pub open spec fn lower_char(c: char) -> char {
    if 'A' <= c <= 'Z' {
        ((c as u8) + 32) as char
    } else {
        c
    }
}

/// Hexadecimal of a byte as the decoder prints it: no leading zero.
pub open spec fn short_hex_chars(b: u8) -> Seq<char> {
    if b < 16 {
        seq![crate::torrent::hex_digit_byte(b as int) as char]
    } else {
        seq![
            crate::torrent::hex_digit_byte((b >> 4u8) as int) as char,
            crate::torrent::hex_digit_byte((b & 15u8) as int) as char,
        ]
    }
}

pub open spec fn spec_percent_decode(s: Seq<char>) -> Seq<char>
    decreases s.len(),
{
    if s.len() == 0 {
        Seq::empty()
    } else if s[0] == '%' {
        if s.len() >= 3 {
            seq![lower_char(s[1]), lower_char(s[2])] + spec_percent_decode(s.skip(3))
        } else {
            Seq::empty()
        }
    } else {
        short_hex_chars(s[0] as u8) + spec_percent_decode(s.skip(1))
    }
}

/// Whether every '%' has two characters after it.
pub open spec fn percent_wf(s: Seq<char>) -> bool {
    forall|i: int| 0 <= i < s.len() && s[i] == '%' ==> i + 3 <= s.len()
}

/// Decodes a percent-encoded ASCII string back to lowercase hexadecimal.
pub fn decode(hex_str: &str) -> (r: String)
    requires
        percent_wf(hex_str@),
        forall|i: int| 0 <= i < hex_str@.len() ==> ((#[trigger] hex_str@[i]) as u32) < 128,
    ensures
        r@ == spec_percent_decode(hex_str@),
{
    let len = hex_str.unicode_len();
    let mut out: Vec<u8> = Vec::new();
    let mut i: usize = 0;
    proof {
        assert(hex_str@.skip(0) =~= hex_str@);
        assert(Seq::new(out@.len(), |j: int| out@[j] as char) + spec_percent_decode(
            hex_str@.skip(0),
        ) =~= spec_percent_decode(hex_str@));
    }
    while i < len
        invariant
            i <= len,
            len == hex_str@.len(),
            percent_wf(hex_str@),
            forall|j: int| 0 <= j < len ==> ((#[trigger] hex_str@[j]) as u32) < 128,
            forall|j: int| 0 <= j < out@.len() ==> #[trigger] out@[j] < 128,
            spec_percent_decode(hex_str@) == Seq::new(
                out@.len(),
                |j: int| out@[j] as char,
            ) + spec_percent_decode(hex_str@.skip(i as int)),
        decreases len - i,
    {
        let c = hex_str.get_char(i);
        let ghost prev = out@;
        if c == '%' {
            let c1 = hex_str.get_char(i + 1);
            let c2 = hex_str.get_char(i + 2);
            let b1: u8 = lower_byte(c1);
            let b2: u8 = lower_byte(c2);
            out.push(b1);
            out.push(b2);
            proof {
                assert(hex_str@.skip(i as int).skip(3) =~= hex_str@.skip(i + 3));
                assert(Seq::new(out@.len(), |j: int| out@[j] as char) =~= Seq::new(
                    prev.len(),
                    |j: int| prev[j] as char,
                ) + seq![lower_char(hex_str@[i as int + 1]), lower_char(hex_str@[i as int + 2])]);
            }
            i = i + 3;
        } else {
            let b: u8 = c as u8;
            proof {
                assert(b >> 4 < 16 && b & 15 < 16) by (bit_vector);
            }
            if b < 16 {
                out.push(hex_digit(b));
            } else {
                out.push(hex_digit(b >> 4));
                out.push(hex_digit(b & 15));
            }
            proof {
                assert(hex_str@.skip(i as int).skip(1) =~= hex_str@.skip(i + 1));
                assert(Seq::new(out@.len(), |j: int| out@[j] as char) =~= Seq::new(
                    prev.len(),
                    |j: int| prev[j] as char,
                ) + short_hex_chars(hex_str@[i as int] as u8));
            }
            i = i + 1;
        }
    }
    proof {
        assert(hex_str@.skip(len as int).len() == 0);
        assert(spec_percent_decode(hex_str@) =~= Seq::new(out@.len(), |j: int| out@[j] as char));
    }
    let ghost outv = out@;
    match bytes_to_string(out) {
        Some(s) => {
            assert(s@ =~= spec_percent_decode(hex_str@));
            s
        },
        None => {
            proof {
                crate::byte_util::lemma_ascii_valid_utf8(outv);
            }
            String::new()
        },
    }
}

/// The lowercase ASCII byte of a character below 128.
fn lower_byte(c: char) -> (r: u8)
    requires
        (c as u32) < 128,
    ensures
        r == lower_char(c) as u8,
        r < 128,
{
    let u = c as u32;
    if 65 <= u && u <= 90 {
        (u + 32) as u8
    } else {
        u as u8
    }
}

/// The lowercase hexadecimal digit byte of a nibble.
fn hex_digit(n: u8) -> (r: u8)
    requires
        n < 16,
    ensures
        r == crate::torrent::hex_digit_byte(n as int),
        r < 128,
{
    if n < 10 {
        48 + n
    } else {
        87 + n
    }
}

/// Whether a string can be percent-decoded: every '%' is followed by
/// two characters, and every character is ASCII.
pub fn is_percent_wf_ascii(s: &str) -> (r: bool)
    ensures
        r == (percent_wf(s@) && (forall|i: int|
            0 <= i < s@.len() ==> ((#[trigger] s@[i]) as u32) < 128)),
{
    let len = s.unicode_len();
    let mut i: usize = 0;
    while i < len
        invariant
            i <= len,
            len == s@.len(),
            forall|j: int| 0 <= j < i && s@[j] == '%' ==> j + 3 <= len,
            forall|j: int| 0 <= j < i ==> ((#[trigger] s@[j]) as u32) < 128,
        decreases len - i,
    {
        let c = s.get_char(i);
        if (c as u32) >= 128 {
            return false;
        }
        if c == '%' && len - i < 3 {
            return false;
        }
        i = i + 1;
    }
    true
}

} // verus!
