//! Parsing of the decimal price and quantity strings that exchange feeds
//! quote, into fixed-point values.
//!
//! A value is the number of hundred-millionths (1e-8) it denotes, held in a
//! `u64`.  The accepted form is one or more digits, optionally followed by a
//! dot and one or more digits; fractional digits beyond the eighth are
//! truncated.

use vstd::prelude::*;

verus! {

use crate::types::spec_find_byte;

/// Number of fixed-point units per whole quoted unit.
pub const PRICE_SCALE: u64 = 100_000_000;

/// Whether `b` is an ASCII decimal digit.
pub open spec fn spec_is_digit(b: u8) -> bool {
    '0' as u8 <= b && b <= '9' as u8
}

/// Whether every byte of `s` is an ASCII decimal digit.
pub open spec fn spec_all_digits(s: Seq<u8>) -> bool {
    forall|i: int| 0 <= i < s.len() ==> spec_is_digit(#[trigger] s[i])
}

/// The number denoted by the digit string `s`, most significant digit first.
pub open spec fn spec_digits_val(s: Seq<u8>) -> int
    decreases s.len(),
{
    if s.len() == 0 {
        0
    } else {
        spec_digits_val(s.drop_last()) * 10 + (s.last() - '0' as u8)
    }
}

/// 10 to the `n`th power.
pub open spec fn spec_pow10(n: nat) -> int
    decreases n,
{
    if n == 0 {
        1
    } else {
        10 * spec_pow10((n - 1) as nat)
    }
}

/// The fixed-point value of a fractional digit string: its first eight
/// digits, padded on the right with zeros to eight places.
pub open spec fn spec_frac_val(s: Seq<u8>) -> int {
    if s.len() >= 8 {
        spec_digits_val(s.take(8))
    } else {
        spec_digits_val(s) * spec_pow10((8 - s.len()) as nat)
    }
}

/// The fixed-point value denoted by `s`, if `s` is a well-formed decimal:
/// digits, optionally followed by a dot and more digits.
pub open spec fn spec_decimal(s: Seq<u8>) -> Option<int> {
    match spec_find_byte(s, '.' as u8) {
        None => if s.len() > 0 && spec_all_digits(s) {
            Some(spec_digits_val(s) * PRICE_SCALE)
        } else {
            None
        },
        Some(i) => {
            let ip = s.take(i);
            let fp = s.skip(i + 1);
            if ip.len() > 0 && fp.len() > 0 && spec_all_digits(ip) && spec_all_digits(fp) {
                Some(spec_digits_val(ip) * PRICE_SCALE + spec_frac_val(fp))
            } else {
                None
            }
        },
    }
}

/// Parses the digit string `s` into a number, detecting overflow.
fn parse_digits(s: &[u8]) -> (r: Option<u64>)
    requires
        s@.len() > 0,
    ensures
        match r {
            Some(v) => spec_all_digits(s@) && spec_digits_val(s@) == v,
            None => !spec_all_digits(s@) || spec_digits_val(s@) > u64::MAX,
        },
{
    let mut v: u64 = 0;
    let mut i: usize = 0;
    while i < s.len()
        invariant
            i <= s@.len(),
            spec_all_digits(s@.take(i as int)),
            spec_digits_val(s@.take(i as int)) == v,
        decreases s@.len() - i,
    {
        let c = s[i];
        if c < '0' as u8 || c > '9' as u8 {
            proof {
                assert(!spec_is_digit(s@[i as int]));
            }
            return None;
        }
        let d = c - '0' as u8;
        let v10 = match v.checked_mul(10) {
            Some(x) => x,
            None => {
                proof {
                    if spec_all_digits(s@) {
                        lemma_digits_val_grows(s@, i as int);
                    }
                }
                return None;
            },
        };
        let vn = match v10.checked_add(d as u64) {
            Some(x) => x,
            None => {
                proof {
                    if spec_all_digits(s@) {
                        lemma_digits_val_grows(s@, i as int);
                    }
                }
                return None;
            },
        };
        proof {
            assert(s@.take(i + 1).drop_last() =~= s@.take(i as int));
            assert(s@.take(i + 1).last() == s@[i as int]);
        }
        v = vn;
        i = i + 1;
    }
    proof {
        assert(s@.take(s@.len() as int) =~= s@);
    }
    Some(v)
}

/// A digit string some prefix of which already overflows denotes more than
/// `u64::MAX` as a whole, because appending digits never shrinks the value.
proof fn lemma_digits_val_grows(s: Seq<u8>, i: int)
    requires
        0 <= i < s.len(),
        spec_all_digits(s),
        spec_digits_val(s.take(i)) * 10 + (s[i] - '0' as u8) > u64::MAX,
    ensures
        spec_digits_val(s) > u64::MAX,
{
    assert(s.take(i + 1).drop_last() =~= s.take(i));
    assert(s.take(i + 1).last() == s[i]);
    assert(spec_digits_val(s.take(i + 1)) > u64::MAX);
    lemma_digits_val_prefix_le(s, i + 1);
}

/// The value of an all-digit string is nonnegative.
proof fn lemma_digits_val_nonneg(s: Seq<u8>)
    requires
        spec_all_digits(s),
    ensures
        spec_digits_val(s) >= 0,
    decreases s.len(),
{
    if s.len() > 0 {
        assert(spec_all_digits(s.drop_last()));
        lemma_digits_val_nonneg(s.drop_last());
        assert(spec_is_digit(s.last()));
    }
}

/// The value of an all-digit string is at least the value of any prefix.
proof fn lemma_digits_val_prefix_le(s: Seq<u8>, i: int)
    requires
        0 <= i <= s.len(),
        spec_all_digits(s),
    ensures
        spec_digits_val(s) >= spec_digits_val(s.take(i)),
    decreases s.len() - i,
{
    if i == s.len() {
        assert(s.take(i) =~= s);
    } else {
        assert(s.take(i + 1).drop_last() =~= s.take(i));
        assert(s.take(i + 1).last() == s[i]);
        assert(spec_all_digits(s.take(i)));
        lemma_digits_val_nonneg(s.take(i));
        assert(spec_is_digit(s[i]));
        assert(spec_digits_val(s.take(i + 1)) >= spec_digits_val(s.take(i)));
        lemma_digits_val_prefix_le(s, i + 1);
    }
}

/// Parses a decimal string into a fixed-point value.  Fails when `s` is not
/// a well-formed decimal or when the value does not fit.
pub fn parse_fixed(s: &[u8]) -> (r: Option<u64>)
    ensures
        match r {
            Some(v) => spec_decimal(s@) == Some(v as int),
            None => spec_decimal(s@) is None || (spec_decimal(s@) matches Some(n) && n
                > u64::MAX),
        },
{
    match crate::types::find_byte(s, '.' as u8) {
        None => {
            if s.len() == 0 {
                return None;
            }
            let v = match parse_digits(s) {
                Some(v) => v,
                None => {
                    proof {
                        if spec_all_digits(s@) {
                            lemma_mul_scale_ge(spec_digits_val(s@));
                        }
                    }
                    return None;
                },
            };
            v.checked_mul(PRICE_SCALE)
        },
        Some(i) => {
            let n = s.len();
            proof {
                assert(s@.subrange(0, i as int) =~= s@.take(i as int));
                assert(s@.subrange(i + 1, s@.len() as int) =~= s@.skip(i + 1));
                assert(i < n);
            }
            let ip = crate::types::slice_range(s, 0, i);
            let fp = crate::types::slice_range(s, i + 1, n);
            if ip.len() == 0 || fp.len() == 0 {
                return None;
            }
            let iv = match parse_digits(ip) {
                Some(v) => v,
                None => {
                    proof {
                        if spec_all_digits(ip@) && spec_all_digits(fp@) {
                            lemma_decimal_int_part_bound(ip@, fp@);
                        }
                    }
                    return None;
                },
            };
            if !all_digits(fp) {
                return None;
            }
            let fv = parse_frac(fp);
            let scaled = match iv.checked_mul(PRICE_SCALE) {
                Some(x) => x,
                None => {
                    proof {
                        lemma_frac_val_nonneg(fp@);
                        lemma_mul_scale_over(iv, spec_frac_val(fp@));
                    }
                    return None;
                },
            };
            scaled.checked_add(fv)
        },
    }
}

/// Whether every byte of `s` is an ASCII decimal digit.
pub fn all_digits(s: &[u8]) -> (r: bool)
    ensures
        r == spec_all_digits(s@),
{
    let mut i: usize = 0;
    while i < s.len()
        invariant
            i <= s@.len(),
            forall|j: int| 0 <= j < i ==> spec_is_digit(#[trigger] s@[j]),
        decreases s@.len() - i,
    {
        let c = s[i];
        if c < '0' as u8 || c > '9' as u8 {
            proof {
                assert(!spec_is_digit(s@[i as int]));
            }
            return false;
        }
        i = i + 1;
    }
    true
}

/// Parses a fractional digit string: its first eight digits, right-padded
/// with zeros to eight places.  The result is below the scale.
fn parse_frac(fp: &[u8]) -> (r: u64)
    requires
        fp@.len() > 0,
        spec_all_digits(fp@),
    ensures
        r == spec_frac_val(fp@),
        r < PRICE_SCALE,
{
    let n: usize = if fp.len() >= 8 {
        8
    } else {
        fp.len()
    };
    let digits = crate::types::slice_range(fp, 0, n);
    proof {
        assert(spec_all_digits(digits@));
        lemma_digits_val_bound(digits@);
        lemma_pow10_le(n as nat);
    }
    let v = match parse_digits(digits) {
        Some(v) => v,
        None => {
            proof {
                assert(false);
            }
            0
        },
    };
    let mut r: u64 = v;
    let mut k: usize = n;
    proof {
        assert(spec_pow10((8 - n) as nat) * spec_pow10((n - n) as nat) == spec_pow10(
            (8 - n) as nat,
        ));
    }
    while k < 8
        invariant
            n <= k <= 8,
            n <= 8,
            spec_digits_val(fp@.take(n as int)) == v,
            v < spec_pow10(n as nat),
            r == v * spec_pow10((k - n) as nat),
            r < spec_pow10(k as nat),
        decreases 8 - k,
    {
        proof {
            lemma_pow10_pos(k as nat);
            lemma_pow10_le(k as nat);
            assert(spec_pow10((k + 1 - n) as nat) == 10 * spec_pow10((k - n) as nat));
            assert(v * spec_pow10((k + 1 - n) as nat) == 10 * (v * spec_pow10((k - n) as nat)))
                by (nonlinear_arith)
                requires
                    spec_pow10((k + 1 - n) as nat) == 10 * spec_pow10((k - n) as nat),
            ;
        }
        r = r * 10;
        k = k + 1;
    }
    proof {
        if fp@.len() >= 8 {
            assert(n == 8);
            assert(fp@.take(8) =~= digits@);
        } else {
            assert(fp@.take(n as int) =~= fp@);
        }
        lemma_pow10_le(8);
    }
    r
}

/// 10^n is positive.
proof fn lemma_pow10_pos(n: nat)
    ensures
        spec_pow10(n) >= 1,
    decreases n,
{
    if n > 0 {
        lemma_pow10_pos((n - 1) as nat);
    }
}

/// 10^n grows with n.
proof fn lemma_pow10_le(n: nat)
    requires
        n <= 8,
    ensures
        spec_pow10(n) <= spec_pow10(8),
        spec_pow10(8) == PRICE_SCALE,
    decreases 8 - n,
{
    if n < 8 {
        lemma_pow10_pos(n);
        lemma_pow10_le(n + 1);
        assert(spec_pow10(n + 1) == 10 * spec_pow10(n));
    } else {
        reveal_with_fuel(spec_pow10, 9);
        assert(spec_pow10(8) == PRICE_SCALE);
    }
}

/// A digit string of length `n` denotes less than 10^n.
proof fn lemma_digits_val_bound(s: Seq<u8>)
    requires
        spec_all_digits(s),
    ensures
        0 <= spec_digits_val(s) < spec_pow10(s.len()),
    decreases s.len(),
{
    if s.len() == 0 {
    } else {
        assert(spec_all_digits(s.drop_last()));
        lemma_digits_val_bound(s.drop_last());
        assert(spec_pow10(s.len()) == 10 * spec_pow10((s.len() - 1) as nat));
        assert(spec_is_digit(s.last()));
    }
}

/// The fractional part of a decimal is nonnegative.
proof fn lemma_frac_val_nonneg(s: Seq<u8>)
    requires
        s.len() > 0,
        spec_all_digits(s),
    ensures
        spec_frac_val(s) >= 0,
{
    if s.len() >= 8 {
        assert(spec_all_digits(s.take(8)));
        lemma_digits_val_bound(s.take(8));
    } else {
        lemma_digits_val_bound(s);
        lemma_pow10_pos((8 - s.len()) as nat);
        assert(spec_digits_val(s) * spec_pow10((8 - s.len()) as nat) >= 0) by (nonlinear_arith)
            requires
                spec_digits_val(s) >= 0,
                spec_pow10((8 - s.len()) as nat) >= 1,
        ;
    }
}

/// A decimal whose scaled integer part already overflows has no
/// representable value, whatever its fractional part adds.
proof fn lemma_mul_scale_over(v: u64, f: int)
    requires
        v * PRICE_SCALE > u64::MAX,
        f >= 0,
    ensures
        v * PRICE_SCALE + f > u64::MAX,
{
}

/// Scaling a value that already exceeds the range keeps it out of range.
proof fn lemma_mul_scale_ge(n: int)
    requires
        n > u64::MAX,
    ensures
        n * PRICE_SCALE > u64::MAX,
{
    assert(n * PRICE_SCALE >= n * 1 == n) by (nonlinear_arith)
        requires
            n > 0,
    ;
}

/// If the integer part of a decimal overflows, the whole decimal overflows.
proof fn lemma_decimal_int_part_bound(ip: Seq<u8>, fp: Seq<u8>)
    requires
        spec_all_digits(ip),
        spec_all_digits(fp),
        fp.len() > 0,
        spec_digits_val(ip) > u64::MAX,
    ensures
        spec_digits_val(ip) * PRICE_SCALE + spec_frac_val(fp) > u64::MAX,
{
    lemma_mul_scale_ge(spec_digits_val(ip));
    lemma_frac_val_nonneg(fp);
}

} // verus!
