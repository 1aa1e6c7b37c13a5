//! Decimal numerals as byte strings: the rendering used by the bencode
//! codec and the parsing used for bencoded integers, string lengths,
//! ports and query values.

use vstd::prelude::*;
use crate::byte_util::{bytes_to_string, lemma_ascii_valid_utf8};

verus! {

/// Decimal digit bytes of `n`, most significant first, without leading
/// zeros; empty when `n <= 0`.
pub open spec fn dec_digits(n: int) -> Seq<u8>
    decreases n,
{
    if n <= 0 {
        Seq::empty()
    } else {
        dec_digits(n / 10).push((48 + n % 10) as u8)
    }
}

/// Decimal rendering of a non-negative integer; `0` renders as "0".
pub open spec fn nat_digits(n: int) -> Seq<u8> {
    if n <= 0 {
        seq![48u8]
    } else {
        dec_digits(n)
    }
}

/// Decimal rendering of an integer, with a leading '-' when negative.
pub open spec fn int_digits(n: int) -> Seq<u8> {
    if n < 0 {
        seq![45u8] + dec_digits(-n)
    } else {
        nat_digits(n)
    }
}

pub open spec fn is_digit(b: u8) -> bool {
    48 <= b <= 57
}

pub open spec fn all_digits(s: Seq<u8>) -> bool {
    forall|i: int| 0 <= i < s.len() ==> is_digit(#[trigger] s[i])
}

/// The number a digit string denotes in base 10.
pub open spec fn digits_val(s: Seq<u8>) -> int
    decreases s.len(),
{
    if s.len() == 0 {
        0
    } else {
        digits_val(s.drop_last()) * 10 + (s.last() - 48)
    }
}

/// The magnitude part of `s`: the bytes after an optional leading sign.
pub open spec fn sign_magnitude(s: Seq<u8>) -> Seq<u8> {
    if s.len() > 0 && (s[0] == 45 || s[0] == 43) {
        s.drop_first()
    } else {
        s
    }
}

pub open spec fn sign_is_negative(s: Seq<u8>) -> bool {
    s.len() > 0 && s[0] == 45
}

/// The integer that an optionally signed digit string denotes, when it
/// lies in the range of `i64`; `None` on any other input.
pub open spec fn parse_int(s: Seq<u8>) -> Option<int> {
    let mag = sign_magnitude(s);
    if mag.len() == 0 || !all_digits(mag) {
        None
    } else if sign_is_negative(s) {
        if -digits_val(mag) >= i64::MIN {
            Some(-digits_val(mag))
        } else {
            None
        }
    } else {
        if digits_val(mag) <= i64::MAX {
            Some(digits_val(mag))
        } else {
            None
        }
    }
}

pub proof fn lemma_dec_digits_are_digits(n: int)
    ensures
        all_digits(dec_digits(n)),
        n > 0 ==> dec_digits(n).len() >= 1,
    decreases n,
{
    if n > 0 {
        lemma_dec_digits_are_digits(n / 10);
    }
}

pub proof fn lemma_digits_val_of_dec(n: int)
    requires
        n >= 0,
    ensures
        digits_val(dec_digits(n)) == n,
    decreases n,
{
    if n > 0 {
        lemma_digits_val_of_dec(n / 10);
        assert(dec_digits(n).drop_last() =~= dec_digits(n / 10));
    }
}

pub proof fn lemma_digits_val_nonneg(s: Seq<u8>)
    requires
        all_digits(s),
    ensures
        digits_val(s) >= 0,
    decreases s.len(),
{
    if s.len() > 0 {
        assert(all_digits(s.drop_last())) by {
            assert(forall|i: int|
                0 <= i < s.len() - 1 ==> is_digit(#[trigger] s.drop_last()[i]));
        }
        lemma_digits_val_nonneg(s.drop_last());
    }
}

/// Reading more digits never shrinks the value: the value of a prefix is a
/// lower bound for the value of the whole string.
pub proof fn lemma_digits_val_prefix(s: Seq<u8>, i: int)
    requires
        all_digits(s),
        0 <= i <= s.len(),
    ensures
        digits_val(s.take(i)) <= digits_val(s),
    decreases s.len() - i,
{
    if i < s.len() {
        lemma_digits_val_prefix(s, i + 1);
        assert(s.take(i + 1).drop_last() =~= s.take(i));
        assert(all_digits(s.take(i))) by {
            assert(forall|j: int| 0 <= j < i ==> is_digit(#[trigger] s.take(i)[j]));
        }
        lemma_digits_val_nonneg(s.take(i));
        assert(digits_val(s.take(i + 1)) == digits_val(s.take(i)) * 10 + (s[i] - 48));
    } else {
        assert(s.take(i) =~= s);
    }
}

/// Round trip: parsing the canonical rendering of an `i64`-range integer
/// yields that integer back.
pub proof fn lemma_parse_int_digits(n: int)
    requires
        i64::MIN <= n <= i64::MAX,
    ensures
        parse_int(int_digits(n)) == Some(n),
{
    if n < 0 {
        let s = int_digits(n);
        lemma_dec_digits_are_digits(-n);
        lemma_digits_val_of_dec(-n);
        assert(s[0] == 45);
        assert(s.drop_first() =~= dec_digits(-n));
        assert(sign_magnitude(s) == dec_digits(-n));
    } else if n == 0 {
        assert(int_digits(0) =~= seq![48u8]);
        assert(digits_val(seq![48u8].drop_last()) == 0) by {
            assert(seq![48u8].drop_last() =~= Seq::<u8>::empty());
        }
        assert(digits_val(seq![48u8]) == 0);
    } else {
        lemma_dec_digits_are_digits(n);
        lemma_digits_val_of_dec(n);
        let s = int_digits(n);
        assert(s == dec_digits(n));
        assert(s[0] != 45 && s[0] != 43);
        assert(sign_magnitude(s) == s);
    }
}

/// A rendered non-negative numeral is non-empty and all digits.
pub proof fn lemma_nat_digits_shape(n: int)
    ensures
        nat_digits(n).len() >= 1,
        all_digits(nat_digits(n)),
        is_digit(nat_digits(n)[0]),
{
    if n > 0 {
        lemma_dec_digits_are_digits(n);
    }
    assert(is_digit(nat_digits(n)[0]));
}

/// Every byte of a rendered integer is a digit or the minus sign.
pub proof fn lemma_int_digits_shape(n: int)
    ensures
        int_digits(n).len() >= 1,
        forall|j: int|
            0 <= j < int_digits(n).len() ==> (#[trigger] int_digits(n)[j] == 45 || is_digit(
                int_digits(n)[j],
            )),
{
    if n < 0 {
        lemma_dec_digits_are_digits(-n);
        assert forall|j: int| 0 <= j < int_digits(n).len() implies (#[trigger] int_digits(n)[j]
            == 45 || is_digit(int_digits(n)[j])) by {
            if j > 0 {
                assert(int_digits(n)[j] == dec_digits(-n)[j - 1]);
            }
        }
    } else {
        lemma_nat_digits_shape(n);
    }
}

/// Renders a `u64` in decimal.
pub fn u64_digits(n: u64) -> (r: Vec<u8>)
    ensures
        r@ == nat_digits(n as int),
{
    if n == 0 {
        let mut out: Vec<u8> = Vec::new();
        out.push(48);
        assert(out@ =~= nat_digits(0));
        return out;
    }
    let mut rev: Vec<u8> = Vec::new();
    let mut m: u64 = n;
    while m > 0
        invariant
            dec_digits(n as int) =~= dec_digits(m as int) + rev@.reverse(),
        decreases m,
    {
        let ghost old_rev = rev@;
        let ghost om = m as int;
        rev.push(48 + (m % 10) as u8);
        m = m / 10;
        proof {
            assert(rev@.reverse() =~= seq![(48 + om % 10) as u8] + old_rev.reverse());
            assert(dec_digits(om) =~= dec_digits(om / 10) + seq![(48 + om % 10) as u8]);
            assert(dec_digits(m as int) + rev@.reverse() =~= dec_digits(om) + old_rev.reverse());
        }
    }
    assert(dec_digits(n as int) =~= rev@.reverse());
    let mut out: Vec<u8> = Vec::new();
    let mut i: usize = rev.len();
    while i > 0
        invariant
            i <= rev@.len(),
            out@.len() == rev@.len() - i,
            forall|j: int| 0 <= j < out@.len() ==> out@[j] == rev@.reverse()[j],
        decreases i,
    {
        i = i - 1;
        out.push(rev[i]);
    }
    assert(out@ =~= rev@.reverse());
    out
}

/// Renders an `i64` in decimal, with a leading '-' when negative.
pub fn i64_digits(n: i64) -> (r: Vec<u8>)
    ensures
        r@ == int_digits(n as int),
{
    if n >= 0 {
        u64_digits(n as u64)
    } else {
        let mag: u64 = if n == i64::MIN {
            9223372036854775808u64
        } else {
            (-n) as u64
        };
        let digits = u64_digits(mag);
        let mut out: Vec<u8> = Vec::new();
        out.push(45);
        let mut i: usize = 0;
        while i < digits.len()
            invariant
                i <= digits@.len(),
                out@ =~= seq![45u8] + digits@.take(i as int),
            decreases digits@.len() - i,
        {
            out.push(digits[i]);
            i = i + 1;
            assert(digits@.take(i as int) =~= digits@.take(i - 1).push(digits@[i - 1]));
        }
        assert(digits@.take(digits@.len() as int) =~= digits@);
        assert(out@ =~= int_digits(n as int));
        out
    }
}

/// Parses an optionally signed decimal byte string into an `i64`, exactly
/// when `parse_int` accepts it.
pub fn parse_i64(s: &[u8]) -> (r: Option<i64>)
    ensures
        match r {
            Some(v) => parse_int(s@) == Some(v as int),
            None => parse_int(s@) is None,
        },
{
    let len = s.len();
    if len == 0 {
        return None;
    }
    let neg: bool = s[0] == 45;
    let start: usize = if s[0] == 45 || s[0] == 43 {
        1
    } else {
        0
    };
    proof {
        assert(sign_magnitude(s@) =~= s@.subrange(start as int, len as int));
    }
    if start >= len {
        return None;
    }
    let mut acc: u128 = 0;
    let mut i: usize = start;
    while i < len
        invariant
            start <= i <= len,
            len == s@.len(),
            start < len,
            sign_magnitude(s@) =~= s@.subrange(start as int, len as int),
            all_digits(s@.subrange(start as int, i as int)),
            acc == digits_val(s@.subrange(start as int, i as int)),
            acc <= 0x8000_0000_0000_0000u128,
        decreases len - i,
    {
        let b = s[i];
        if b < 48 || b > 57 {
            proof {
                let mag = sign_magnitude(s@);
                assert(mag[i - start] == s@[i as int]);
                assert(!all_digits(mag));
            }
            return None;
        }
        let ghost prev = s@.subrange(start as int, i as int);
        acc = acc * 10 + (b - 48) as u128;
        i = i + 1;
        proof {
            let cur = s@.subrange(start as int, i as int);
            assert(cur.drop_last() =~= prev);
            assert(cur.last() == b);
        }
        if acc > 0x8000_0000_0000_0000u128 {
            // The value already exceeds the range of `i64` and further
            // digits only grow it; a later non-digit byte would make the
            // input invalid anyway, so either way parsing fails.
            proof {
                let mag = sign_magnitude(s@);
                if all_digits(mag) {
                    lemma_digits_val_prefix(mag, i - start);
                    assert(mag.take(i - start) =~= s@.subrange(start as int, i as int));
                    assert(digits_val(mag) >= acc);
                }
            }
            return None;
        }
    }
    proof {
        assert(s@.subrange(start as int, len as int) =~= sign_magnitude(s@));
    }
    if neg {
        if acc == 0x8000_0000_0000_0000u128 {
            return Some(i64::MIN);
        }
        Some(-((acc as u64) as i64))
    } else {
        if acc > 0x7FFF_FFFF_FFFF_FFFFu128 {
            return None;
        }
        Some((acc as u64) as i64)
    }
}

/// Parses a decimal byte string into a `u64`: digits only, no sign.
pub fn parse_u64(s: &[u8]) -> (r: Option<u64>)
    ensures
        match r {
            Some(v) => parse_int(s@) == Some(v as int) && !sign_is_negative(s@) && (s@.len()
                == 0 || s@[0] != 43),
            None => !(parse_int(s@) matches Some(v) && 0 <= v <= u64::MAX && !sign_is_negative(
                s@,
            ) && s@[0] != 43),
        },
{
    let len = s.len();
    if len == 0 {
        return None;
    }
    if s[0] == 45 || s[0] == 43 {
        return None;
    }
    let mut acc: u128 = 0;
    let mut i: usize = 0;
    while i < len
        invariant
            i <= len,
            len == s@.len(),
            len > 0,
            s@[0] != 45 && s@[0] != 43,
            all_digits(s@.subrange(0, i as int)),
            acc == digits_val(s@.subrange(0, i as int)),
            acc <= 0x8000_0000_0000_0000u128,
        decreases len - i,
    {
        let b = s[i];
        if b < 48 || b > 57 {
            proof {
                assert(sign_magnitude(s@) == s@);
                assert(!all_digits(s@));
            }
            return None;
        }
        let ghost prev = s@.subrange(0, i as int);
        acc = acc * 10 + (b - 48) as u128;
        i = i + 1;
        proof {
            let cur = s@.subrange(0, i as int);
            assert(cur.drop_last() =~= prev);
            assert(cur.last() == b);
        }
        if acc > 0x8000_0000_0000_0000u128 {
            proof {
                assert(sign_magnitude(s@) == s@);
                if all_digits(s@) {
                    lemma_digits_val_prefix(s@, i as int);
                    assert(s@.take(i as int) =~= s@.subrange(0, i as int));
                }
            }
            return None;
        }
    }
    proof {
        assert(s@.subrange(0, len as int) =~= s@);
        assert(sign_magnitude(s@) == s@);
    }
    if acc > 0x7FFF_FFFF_FFFF_FFFFu128 {
        return None;
    }
    Some(acc as u64)
}

/// The decimal rendering of a non-negative number, as characters.
pub open spec fn nat_digit_chars(n: int) -> Seq<char> {
    Seq::new(nat_digits(n).len(), |i: int| nat_digits(n)[i] as char)
}

/// The decimal rendering of an integer, as characters.
pub open spec fn int_digit_chars(n: int) -> Seq<char> {
    Seq::new(int_digits(n).len(), |i: int| int_digits(n)[i] as char)
}

/// Renders a `u64` as a decimal string.
pub fn u64_to_string(n: u64) -> (r: String)
    ensures
        r@ == nat_digit_chars(n as int),
{
    let digits = u64_digits(n);
    let ghost dv = digits@;
    proof {
        lemma_nat_digits_shape(n as int);
    }
    match bytes_to_string(digits) {
        Some(s) => {
            assert(s@ =~= nat_digit_chars(n as int));
            s
        },
        None => {
            proof {
                lemma_ascii_valid_utf8(dv);
            }
            String::new()
        },
    }
}

/// Renders an `i64` as a decimal string, with a leading '-' when
/// negative.
pub fn i64_to_string(n: i64) -> (r: String)
    ensures
        r@ == int_digit_chars(n as int),
{
    let digits = i64_digits(n);
    let ghost dv = digits@;
    proof {
        lemma_int_digits_shape(n as int);
    }
    match bytes_to_string(digits) {
        Some(s) => {
            assert(s@ =~= int_digit_chars(n as int));
            s
        },
        None => {
            proof {
                lemma_ascii_valid_utf8(dv);
            }
            String::new()
        },
    }
}

} // verus!
