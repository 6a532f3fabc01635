//! Numeric literal parsing.
//!
//! Scan arguments arrive as byte tokens.  Unsigned literals are decimal,
//! or hexadecimal with a `0x`/`0X` prefix; signed literals add an optional
//! leading minus.  Floating-point literals are not parsed here: the
//! embedder parses them and hands the library their encoded bits.

use vstd::prelude::*;
use crate::Error;

verus! {

/// True for an ASCII decimal digit.
pub open spec fn is_digit(b: u8) -> bool {
    0x30 <= b <= 0x39
}

/// Numeric value of an ASCII decimal digit.
pub open spec fn digit_val(b: u8) -> int {
    b - 0x30
}

/// True when every byte of `s` is a decimal digit.
pub open spec fn all_digits(s: Seq<u8>) -> bool {
    forall|i: int| 0 <= i < s.len() ==> is_digit(#[trigger] s[i])
}

/// Value of a digit string read in base ten, unbounded.
pub open spec fn dec_val(s: Seq<u8>) -> int
    decreases s.len(),
{
    if s.len() == 0 {
        0
    } else {
        dec_val(s.drop_last()) * 10 + digit_val(s.last())
    }
}

/// True for an ASCII hexadecimal digit of either case.
pub open spec fn is_hex_digit(b: u8) -> bool {
    ||| 0x30 <= b <= 0x39
    ||| 0x41 <= b <= 0x46
    ||| 0x61 <= b <= 0x66
}

/// Numeric value of an ASCII hexadecimal digit.
pub open spec fn hex_digit_val(b: u8) -> int {
    if 0x30 <= b <= 0x39 {
        b - 0x30
    } else if 0x41 <= b <= 0x46 {
        b - 0x41 + 10
    } else {
        b - 0x61 + 10
    }
}

/// True when every byte of `s` is a hexadecimal digit.
pub open spec fn all_hex_digits(s: Seq<u8>) -> bool {
    forall|i: int| 0 <= i < s.len() ==> is_hex_digit(#[trigger] s[i])
}

/// Value of a digit string read in base sixteen, unbounded.
pub open spec fn hex_val(s: Seq<u8>) -> int
    decreases s.len(),
{
    if s.len() == 0 {
        0
    } else {
        hex_val(s.drop_last()) * 16 + hex_digit_val(s.last())
    }
}

/// Value of a well-formed decimal token, or `None` when malformed.
pub open spec fn dec_u64_val(s: Seq<u8>) -> Option<int> {
    if s.len() > 0 && all_digits(s) {
        Some(dec_val(s))
    } else {
        None
    }
}

/// True when `s` carries a `0x` or `0X` prefix.
pub open spec fn has_hex_prefix(s: Seq<u8>) -> bool {
    s.len() >= 2 && s[0] == 0x30 && (s[1] == 0x78 || s[1] == 0x58)
}

/// Value of an unsigned token: hexadecimal after a `0x`/`0X` prefix,
/// decimal otherwise; `None` when malformed.
pub open spec fn unsigned_val(s: Seq<u8>) -> Option<int> {
    if has_hex_prefix(s) {
        let t = s.subrange(2, s.len() as int);
        if t.len() > 0 && all_hex_digits(t) {
            Some(hex_val(t))
        } else {
            None
        }
    } else {
        dec_u64_val(s)
    }
}

/// A decimal value never shrinks as digits are appended.
proof fn lemma_dec_val_nonneg(s: Seq<u8>)
    requires
        all_digits(s),
    ensures
        dec_val(s) >= 0,
    decreases s.len(),
{
    if s.len() > 0 {
        assert(all_digits(s.drop_last()));
        lemma_dec_val_nonneg(s.drop_last());
    }
}

/// A decimal prefix never exceeds the value of the full string.
proof fn lemma_dec_val_prefix(s: Seq<u8>, i: int)
    requires
        all_digits(s),
        0 <= i <= s.len(),
    ensures
        dec_val(s.subrange(0, i)) <= dec_val(s),
    decreases s.len() - i,
{
    if i < s.len() {
        let t = s.subrange(0, i + 1);
        assert(t.drop_last() =~= s.subrange(0, i));
        assert(all_digits(t.drop_last()));
        lemma_dec_val_nonneg(t.drop_last());
        assert(dec_val(s.subrange(0, i)) <= dec_val(s.subrange(0, i + 1)));
        lemma_dec_val_prefix(s, i + 1);
        assert(s.subrange(0, s.len() as int) =~= s);
    } else {
        assert(s.subrange(0, i) =~= s);
    }
}

/// A hexadecimal value is never negative.
pub proof fn lemma_hex_val_nonneg(s: Seq<u8>)
    requires
        all_hex_digits(s),
    ensures
        hex_val(s) >= 0,
    decreases s.len(),
{
    if s.len() > 0 {
        assert(all_hex_digits(s.drop_last()));
        lemma_hex_val_nonneg(s.drop_last());
    }
}

/// A hexadecimal prefix never exceeds the value of the full string.
proof fn lemma_hex_val_prefix(s: Seq<u8>, i: int)
    requires
        all_hex_digits(s),
        0 <= i <= s.len(),
    ensures
        hex_val(s.subrange(0, i)) <= hex_val(s),
    decreases s.len() - i,
{
    if i < s.len() {
        let t = s.subrange(0, i + 1);
        assert(t.drop_last() =~= s.subrange(0, i));
        assert(all_hex_digits(t.drop_last()));
        lemma_hex_val_nonneg(t.drop_last());
        assert(hex_val(s.subrange(0, i)) <= hex_val(s.subrange(0, i + 1)));
        lemma_hex_val_prefix(s, i + 1);
        assert(s.subrange(0, s.len() as int) =~= s);
    } else {
        assert(s.subrange(0, i) =~= s);
    }
}

/// Parses a decimal unsigned literal.
///
/// Succeeds exactly on a non-empty all-digit token whose value fits in a
/// `u64`.
pub fn parse_u64_dec(s: &[u8]) -> (r: crate::Result<u64>)
    ensures
        match r {
            Ok(v) => dec_u64_val(s@) == Some(v as int),
            Err(e) => {
                &&& e == Error::ParseUnsigned
                &&& (dec_u64_val(s@) is None || dec_u64_val(s@).unwrap() > u64::MAX)
            },
        },
{
    if s.len() == 0 {
        return Err(Error::ParseUnsigned);
    }
    let mut acc: u64 = 0;
    let mut i: usize = 0;
    while i < s.len()
        invariant
            0 <= i <= s.len(),
            all_digits(s@.subrange(0, i as int)),
            acc == dec_val(s@.subrange(0, i as int)),
        decreases s.len() - i,
    {
        let b = s[i];
        if b < 0x30 || b > 0x39 {
            assert(!is_digit(s@[i as int]));
            return Err(Error::ParseUnsigned);
        }
        let d = (b - 0x30) as u64;
        proof {
            let t = s@.subrange(0, i + 1);
            assert(t.drop_last() =~= s@.subrange(0, i as int));
            assert(t.last() == s@[i as int]);
        }
        let mul = acc.checked_mul(10);
        let step = match mul {
            Some(m) => m.checked_add(d),
            None => None,
        };
        match step {
            Some(next) => {
                acc = next;
            },
            None => {
                proof {
                    assert(dec_val(s@.subrange(0, i + 1)) > u64::MAX);
                    if s@.len() > 0 && all_digits(s@) {
                        lemma_dec_val_prefix(s@, i + 1);
                    }
                }
                return Err(Error::ParseUnsigned);
            },
        }
        i = i + 1;
    }
    proof {
        assert(s@.subrange(0, s@.len() as int) =~= s@);
    }
    Ok(acc)
}

/// Parses a hexadecimal unsigned literal without a prefix.
///
/// Succeeds exactly on a non-empty all-hex-digit token whose value fits
/// in a `u64`.
pub fn parse_u64_hex(s: &[u8]) -> (r: crate::Result<u64>)
    ensures
        match r {
            Ok(v) => s@.len() > 0 && all_hex_digits(s@) && hex_val(s@) == v as int,
            Err(e) => {
                &&& e == Error::ParseUnsigned
                &&& (s@.len() == 0 || !all_hex_digits(s@) || hex_val(s@) > u64::MAX)
            },
        },
{
    if s.len() == 0 {
        return Err(Error::ParseUnsigned);
    }
    let mut acc: u64 = 0;
    let mut i: usize = 0;
    while i < s.len()
        invariant
            0 <= i <= s.len(),
            all_hex_digits(s@.subrange(0, i as int)),
            acc == hex_val(s@.subrange(0, i as int)),
        decreases s.len() - i,
    {
        let b = s[i];
        let d: u64 = if 0x30 <= b && b <= 0x39 {
            (b - 0x30) as u64
        } else if 0x41 <= b && b <= 0x46 {
            (b - 0x41 + 10) as u64
        } else if 0x61 <= b && b <= 0x66 {
            (b - 0x61 + 10) as u64
        } else {
            assert(!is_hex_digit(s@[i as int]));
            return Err(Error::ParseUnsigned);
        };
        proof {
            let t = s@.subrange(0, i + 1);
            assert(t.drop_last() =~= s@.subrange(0, i as int));
            assert(t.last() == s@[i as int]);
        }
        let mul = acc.checked_mul(16);
        let step = match mul {
            Some(m) => m.checked_add(d),
            None => None,
        };
        match step {
            Some(next) => {
                acc = next;
            },
            None => {
                proof {
                    assert(hex_val(s@.subrange(0, i + 1)) > u64::MAX);
                    if s@.len() > 0 && all_hex_digits(s@) {
                        lemma_hex_val_prefix(s@, i + 1);
                    }
                }
                return Err(Error::ParseUnsigned);
            },
        }
        i = i + 1;
    }
    proof {
        assert(s@.subrange(0, s@.len() as int) =~= s@);
    }
    Ok(acc)
}

/// Parses an unsigned literal, hexadecimal when prefixed with `0x`/`0X`,
/// decimal otherwise.
pub fn parse_u64(s: &[u8]) -> (r: crate::Result<u64>)
    ensures
        match r {
            Ok(v) => unsigned_val(s@) == Some(v as int),
            Err(e) => {
                &&& e == Error::ParseUnsigned
                &&& (unsigned_val(s@) is None || unsigned_val(s@).unwrap() > u64::MAX)
            },
        },
{
    if s.len() >= 2 && s[0] == 0x30 && (s[1] == 0x78 || s[1] == 0x58) {
        let rest = &s[2..s.len()];
        parse_u64_hex(rest)
    } else {
        parse_u64_dec(s)
    }
}

/// Value of a signed token: an optional leading minus, then an unsigned
/// token; `None` when malformed.
pub open spec fn signed_val(s: Seq<u8>) -> Option<int> {
    if s.len() >= 1 && s[0] == 0x2d {
        match unsigned_val(s.subrange(1, s.len() as int)) {
            Some(v) => Some(-v),
            None => None,
        }
    } else {
        unsigned_val(s)
    }
}

/// Parses a signed literal.
///
/// Succeeds exactly when the token is well formed and its value fits in
/// an `i64`.
pub fn parse_i64(s: &[u8]) -> (r: crate::Result<i64>)
    ensures
        match r {
            Ok(v) => signed_val(s@) == Some(v as int),
            Err(e) => {
                &&& e == Error::ParseSigned
                &&& (signed_val(s@) is None || signed_val(s@).unwrap() > i64::MAX
                    || signed_val(s@).unwrap() < i64::MIN)
            },
        },
{
    if s.len() >= 1 && s[0] == 0x2d {
        let rest = &s[1..s.len()];
        match parse_u64(rest) {
            Ok(v) => {
                if v <= i64::MAX as u64 {
                    Ok(-(v as i64))
                } else if v == 0x8000_0000_0000_0000u64 {
                    Ok(i64::MIN)
                } else {
                    Err(Error::ParseSigned)
                }
            },
            Err(_) => {
                proof {
                    let t = s@.subrange(1, s@.len() as int);
                    if unsigned_val(t) is Some {
                        assert(unsigned_val(t).unwrap() > u64::MAX);
                    }
                }
                Err(Error::ParseSigned)
            },
        }
    } else {
        match parse_u64(s) {
            Ok(v) => {
                if v <= i64::MAX as u64 {
                    Ok(v as i64)
                } else {
                    Err(Error::ParseSigned)
                }
            },
            Err(_) => Err(Error::ParseSigned),
        }
    }
}

} // verus!
