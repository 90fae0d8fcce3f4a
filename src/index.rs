//! Decoding of one-based face vertex indices.
use vstd::prelude::*;

use crate::text::chars_of;

verus! {

/// A decimal digit.
pub open spec fn is_digit(c: char) -> bool {
    '0' <= c && c <= '9'
}

/// The value of the decimal digit `c`.
pub open spec fn digit_value(c: char) -> nat {
    (c as int - '0' as int) as nat
}

/// Every character of `s` is a decimal digit.
pub open spec fn all_digits(s: Seq<char>) -> bool {
    forall|i: int| 0 <= i < s.len() ==> is_digit(#[trigger] s[i])
}

/// The value of the decimal numeral `s`.
pub open spec fn digits_value(s: Seq<char>) -> nat
    decreases s.len(),
{
    if s.len() == 0 {
        0
    } else {
        digits_value(s.drop_last()) * 10 + digit_value(s.last())
    }
}

/// The number that an unsigned integer type reads from `s` when no bound
/// applies: an optional `+` followed by at least one decimal digit.
pub open spec fn decimal_of(s: Seq<char>) -> Option<nat> {
    let d = if s.len() > 0 && s[0] == '+' {
        s.drop_first()
    } else {
        s
    };
    if d.len() > 0 && all_digits(d) {
        Some(digits_value(d))
    } else {
        None
    }
}

/// The zero-based index that the one-based word `s` names, where the word
/// must read as a number from 1 to `max`.
pub open spec fn one_based(s: Seq<char>, max: nat) -> Option<nat> {
    match decimal_of(s) {
        Some(n) => if 1 <= n && n <= max {
            Some((n - 1) as nat)
        } else {
            None
        },
        None => None,
    }
}

/// A numeral never reads less than any of its prefixes.
proof fn lemma_digits_prefix(s: Seq<char>, k: int)
    requires
        0 <= k <= s.len(),
    ensures
        digits_value(s.take(k)) <= digits_value(s),
    decreases s.len(),
{
    if k < s.len() {
        assert(s.drop_last().take(k) =~= s.take(k));
        lemma_digits_prefix(s.drop_last(), k);
    } else {
        assert(s.take(k) =~= s);
    }
}

/// Reads `word` as a one-based index no larger than `max` and returns it
/// zero-based.
pub fn decode_one_based(word: &str, max: u64) -> (r: Option<u64>)
    ensures
        match one_based(word@, max as nat) {
            Some(n) => r == Some(n as u64),
            None => r is None,
        },
{
    let cs = chars_of(word);
    let start: usize = if cs.len() > 0 && cs[0] == '+' {
        1
    } else {
        0
    };
    let ghost d = if word@.len() > 0 && word@[0] == '+' {
        word@.drop_first()
    } else {
        word@
    };
    assert(d =~= cs@.skip(start as int));
    if start >= cs.len() {
        return None;
    }
    let mut i: usize = start;
    let mut v: u64 = 0;
    while i < cs.len()
        invariant
            start <= i <= cs.len(),
            d == cs@.skip(start as int),
            decimal_of(word@) == (if d.len() > 0 && all_digits(d) {
                Some(digits_value(d))
            } else {
                None
            }),
            all_digits(cs@.subrange(start as int, i as int)),
            v == digits_value(cs@.subrange(start as int, i as int)),
            v <= max,
        decreases cs.len() - i,
    {
        let c = cs[i];
        let ghost prefix = cs@.subrange(start as int, i as int);
        let ghost next = cs@.subrange(start as int, i + 1);
        assert(next.drop_last() =~= prefix);
        assert(next.last() == c);
        if !('0' <= c && c <= '9') {
            assert(d[(i - start) as int] == c);
            assert(!is_digit(d[(i - start) as int]));
            assert(!all_digits(d));
            return None;
        }
        let dv: u64 = (c as u32 - '0' as u32) as u64;
        assert(dv == digit_value(c));
        if v > max / 10 || max - v * 10 < dv {
            proof {
                assert(digits_value(next) == v * 10 + dv);
                assert(v * 10 + dv > max) by (nonlinear_arith)
                    requires
                        v > max / 10 || max - v * 10 < dv,
                        v <= max,
                ;
                assert(digits_value(next) > max);
                if all_digits(d) {
                    assert(d.take(i + 1 - start) =~= next);
                    lemma_digits_prefix(d, i + 1 - start);
                }
            }
            return None;
        }
        v = v * 10 + dv;
        i = i + 1;
    }
    assert(cs@.subrange(start as int, i as int) =~= d);
    if v == 0 {
        None
    } else {
        Some(v - 1)
    }
}

/// An integer type that face vertex indices decode to.
pub trait FaceIndex: Sized {
    /// The zero-based index that the one-based word `word` names, if it
    /// reads as a number of this type other than zero.
    spec fn index_of(word: Seq<char>) -> Option<Self>;

    /// Reads a one-based index and returns it zero-based.
    fn decode(word: &str) -> (r: Option<Self>)
        ensures
            r == Self::index_of(word@),
    ;
}

impl FaceIndex for u8 {
    open spec fn index_of(word: Seq<char>) -> Option<u8> {
        match one_based(word, u8::MAX as nat) {
            Some(n) => Some(n as u8),
            None => None,
        }
    }

    fn decode(word: &str) -> (r: Option<u8>) {
        match decode_one_based(word, u8::MAX as u64) {
            Some(v) => Some(v as u8),
            None => None,
        }
    }
}

impl FaceIndex for u16 {
    open spec fn index_of(word: Seq<char>) -> Option<u16> {
        match one_based(word, u16::MAX as nat) {
            Some(n) => Some(n as u16),
            None => None,
        }
    }

    fn decode(word: &str) -> (r: Option<u16>) {
        match decode_one_based(word, u16::MAX as u64) {
            Some(v) => Some(v as u16),
            None => None,
        }
    }
}

impl FaceIndex for u32 {
    open spec fn index_of(word: Seq<char>) -> Option<u32> {
        match one_based(word, u32::MAX as nat) {
            Some(n) => Some(n as u32),
            None => None,
        }
    }

    fn decode(word: &str) -> (r: Option<u32>) {
        match decode_one_based(word, u32::MAX as u64) {
            Some(v) => Some(v as u32),
            None => None,
        }
    }
}

impl FaceIndex for u64 {
    open spec fn index_of(word: Seq<char>) -> Option<u64> {
        match one_based(word, u64::MAX as nat) {
            Some(n) => Some(n as u64),
            None => None,
        }
    }

    fn decode(word: &str) -> (r: Option<u64>) {
        decode_one_based(word, u64::MAX)
    }
}

impl FaceIndex for usize {
    open spec fn index_of(word: Seq<char>) -> Option<usize> {
        match one_based(word, usize::MAX as nat) {
            Some(n) => Some(n as usize),
            None => None,
        }
    }

    fn decode(word: &str) -> (r: Option<usize>) {
        match decode_one_based(word, usize::MAX as u64) {
            Some(v) => Some(v as usize),
            None => None,
        }
    }
}

} // verus!
