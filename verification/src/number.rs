//! Arithmetic over IEEE-754 binary64 bit patterns.
//!
//! The wire format stores every number as 8 bytes of an IEEE-754 double.
//! On decode, a stored number with no fractional part becomes an `Integer`
//! (truncated toward zero, saturating at the 64-bit signed bounds); any other
//! pattern, including NaN and the infinities, stays a `Number`. On encode an
//! `Integer` is widened to the nearest double, rounding ties to even. The
//! codec computes all of this on the bit patterns, never on a hardware float.
//!
//! Bit layout of a pattern `b`: the sign is `b / 2^63`, the biased exponent
//! is `(b / 2^52) % 2^11`, and the fraction is `b % 2^52`. A finite nonzero
//! value with biased exponent `e` and fraction `f` represents
//! `(-1)^sign * (2^52 + f) * 2^(e - 1075)`.

use vstd::prelude::*;
use vstd::arithmetic::power2::{pow2, lemma_pow2_adds, lemma_pow2_pos, lemma_pow2_strictly_increases, lemma2_to64, lemma2_to64_rest};
use vstd::arithmetic::div_mod::{lemma_fundamental_div_mod, lemma_fundamental_div_mod_converse};
use vstd::arithmetic::mul::{lemma_mul_inequality, lemma_mul_strict_upper_bound};

use crate::value::{LuaVal, LuaValue};

verus! {

/// The sign bit of a pattern: 0 or 1.
pub open spec fn f64_sign(bits: u64) -> int {
    bits as int / 0x8000_0000_0000_0000
}

/// The biased exponent of a pattern: 0 to 0x7ff.
pub open spec fn f64_exp(bits: u64) -> int {
    (bits as int / 0x10_0000_0000_0000) % 0x800
}

/// The 52-bit fraction of a pattern.
pub open spec fn f64_frac(bits: u64) -> int {
    bits as int % 0x10_0000_0000_0000
}

/// True when the pattern represents a value with no fractional part:
/// a zero of either sign, or a finite value whose significand has no bits
/// below the binary point. NaN and the infinities are not whole.
pub open spec fn f64_is_whole(bits: u64) -> bool {
    let e = f64_exp(bits);
    if e == 0x7ff {
        false
    } else if e == 0 {
        f64_frac(bits) == 0
    } else if e < 1023 {
        false
    } else if e >= 1075 {
        true
    } else {
        f64_frac(bits) % (pow2((1075 - e) as nat) as int) == 0
    }
}

/// The magnitude of a whole pattern, as an unbounded integer.
pub open spec fn f64_whole_mag(bits: u64) -> int {
    let e = f64_exp(bits);
    if e == 0 {
        0
    } else {
        let sig = pow2(52) + f64_frac(bits);
        if e >= 1075 {
            sig * pow2((e - 1075) as nat)
        } else {
            sig / pow2((1075 - e) as nat) as int
        }
    }
}

/// Truncation of a whole pattern toward zero into a 64-bit signed integer,
/// saturating at the bounds.
pub open spec fn f64_trunc_sat(bits: u64) -> i64 {
    let m = f64_whole_mag(bits);
    if f64_sign(bits) == 0 {
        if m > i64::MAX {
            i64::MAX
        } else {
            m as i64
        }
    } else {
        if m >= 0x8000_0000_0000_0000 {
            i64::MIN
        } else {
            (-m) as i64
        }
    }
}

/// How a decoded number is classified: whole patterns become integers,
/// everything else stays a floating number.
pub open spec fn spec_classify_number(bits: u64) -> LuaVal {
    if f64_is_whole(bits) {
        LuaVal::Integer(f64_trunc_sat(bits))
    } else {
        LuaVal::Number(bits)
    }
}

/// The position of the highest set bit: floor of the base-2 logarithm.
pub open spec fn spec_msb(m: nat) -> nat
    decreases m,
{
    if m <= 1 {
        0
    } else {
        1 + spec_msb(m / 2)
    }
}

/// The absolute value of a 64-bit signed integer.
pub open spec fn spec_i64_abs(i: i64) -> nat {
    if i < 0 {
        (-(i as int)) as nat
    } else {
        i as nat
    }
}

/// The IEEE-754 binary64 pattern nearest to a 64-bit signed integer,
/// rounding ties to even: the widening that encoding applies to an integer.
pub open spec fn i64_to_f64_bits(i: i64) -> u64 {
    if i == 0 {
        0
    } else {
        let sign: int = if i < 0 { 1 } else { 0 };
        let m = spec_i64_abs(i);
        let k = spec_msb(m);
        if k <= 52 {
            (sign * pow2(63) + (k + 1023) * pow2(52) + (m * pow2((52 - k) as nat) - pow2(52))) as u64
        } else {
            let sh = (k - 52) as nat;
            let q = m / pow2(sh);
            let r = m % pow2(sh);
            let half = pow2((sh - 1) as nat);
            let q2: nat = if r > half || (r == half && q % 2 == 1) {
                q + 1
            } else {
                q
            };
            if q2 == pow2(53) {
                (sign * pow2(63) + (k + 1024) * pow2(52)) as u64
            } else {
                (sign * pow2(63) + (k + 1023) * pow2(52) + (q2 - pow2(52))) as u64
            }
        }
    }
}

/// A value is canonical when re-decoding its encoding reproduces it exactly:
/// integers that the 53-bit significand represents without rounding and
/// without saturation, numbers that are not whole, and containers of such.
pub open spec fn lua_canonical(v: LuaVal) -> bool
    decreases v,
{
    match v {
        LuaVal::Integer(i) => f64_trunc_sat(i64_to_f64_bits(i)) == i,
        LuaVal::Number(bits) => !f64_is_whole(bits),
        LuaVal::Table(es) => pairs_canonical(es),
        _ => true,
    }
}

/// Canonicity of every key and value among table entries.
pub open spec fn pairs_canonical(es: Seq<(LuaVal, LuaVal)>) -> bool
    decreases es,
{
    es.len() == 0 || (lua_canonical(es[0].0) && lua_canonical(es[0].1)
        && pairs_canonical(es.subrange(1, es.len() as int)))
}

/// Entry-wise construction of [`pairs_canonical`].
pub proof fn lemma_pairs_canonical_build(es: Seq<(LuaVal, LuaVal)>)
    requires
        forall|i: int| 0 <= i < es.len() ==> lua_canonical(#[trigger] es[i].0) && lua_canonical(es[i].1),
    ensures
        pairs_canonical(es),
    decreases es.len(),
{
    if es.len() > 0 {
        let tail = es.subrange(1, es.len() as int);
        assert(forall|i: int| 0 <= i < tail.len() ==> lua_canonical(#[trigger] tail[i].0) && lua_canonical(tail[i].1)) by {
            assert(forall|i: int| 0 <= i < tail.len() ==> tail[i] == es[i + 1]);
        }
        lemma_pairs_canonical_build(tail);
    }
}

/// Recovers the three fields from an assembled pattern.
proof fn lemma_f64_fields(sign: int, e: int, fr: int)
    requires
        0 <= sign < 2,
        0 <= e < 0x800,
        0 <= fr < 0x10_0000_0000_0000,
    ensures
        sign * pow2(63) + e * pow2(52) + fr < pow2(64),
        f64_sign((sign * pow2(63) + e * pow2(52) + fr) as u64) == sign,
        f64_exp((sign * pow2(63) + e * pow2(52) + fr) as u64) == e,
        f64_frac((sign * pow2(63) + e * pow2(52) + fr) as u64) == fr,
{
    lemma2_to64();
    lemma2_to64_rest();
    let bits = sign * pow2(63) + e * pow2(52) + fr;
    assert(e * pow2(52) <= 0x7ff * 0x10_0000_0000_0000) by {
        lemma_mul_inequality(e, 0x7ff, pow2(52) as int);
    }
    assert(sign * pow2(63) <= pow2(63));
    assert(bits < pow2(64));
    assert(bits as u64 as int == bits);
    // fraction: bits = (sign * 2^11 + e) * 2^52 + fr
    assert(bits == (sign * 0x800 + e) * 0x10_0000_0000_0000 + fr) by {
        assert(sign * pow2(63) == sign * 0x800 * 0x10_0000_0000_0000) by {
            lemma_pow2_adds(11, 52);
        }
    }
    lemma_fundamental_div_mod_converse(bits, 0x10_0000_0000_0000, sign * 0x800 + e, fr);
    assert(f64_frac(bits as u64) == fr);
    // exponent: (bits / 2^52) % 2^11 == e
    assert(bits / 0x10_0000_0000_0000 == sign * 0x800 + e);
    lemma_fundamental_div_mod_converse(sign * 0x800 + e, 0x800, sign, e);
    assert(f64_exp(bits as u64) == e);
    // sign: bits / 2^63 == sign
    assert(bits == sign * 0x8000_0000_0000_0000 + (e * pow2(52) + fr));
    assert(e * pow2(52) + fr < 0x8000_0000_0000_0000);
    lemma_fundamental_div_mod_converse(bits, 0x8000_0000_0000_0000, sign, e * pow2(52) + fr);
    assert(f64_sign(bits as u64) == sign);
}

/// The highest set bit brackets the value: `2^msb <= m < 2^(msb+1)`.
pub proof fn lemma_msb_bounds(m: nat)
    requires
        m >= 1,
    ensures
        pow2(spec_msb(m)) <= m < pow2(spec_msb(m) + 1),
    decreases m,
{
    lemma2_to64();
    if m <= 1 {
        assert(pow2(0) == 1 && pow2(1) == 2);
    } else {
        lemma_msb_bounds(m / 2);
        let s = spec_msb(m / 2);
        lemma_fundamental_div_mod(m as int, 2);
        assert(pow2(s + 1) == 2 * pow2(s)) by {
            lemma_pow2_adds(s, 1);
        }
        assert(pow2(s + 2) == 2 * pow2(s + 1)) by {
            lemma_pow2_adds(s + 1, 1);
        }
    }
}

/// For values that fit 64 bits, the highest set bit is at most 63.
proof fn lemma_msb_range(m: nat)
    requires
        1 <= m < 0x1_0000_0000_0000_0000,
    ensures
        spec_msb(m) <= 63,
{
    lemma_msb_bounds(m);
    lemma2_to64_rest();
    if spec_msb(m) > 63 {
        lemma_pow2_strictly_increases(64, spec_msb(m));
    }
}

/// Two to the power `k`, executable.
pub fn pow2_u64(k: u64) -> (r: u64)
    requires
        k < 64,
    ensures
        r == pow2(k as nat),
{
    let mut i: u64 = 0;
    let mut p: u64 = 1;
    proof {
        lemma2_to64();
        lemma2_to64_rest();
    }
    while i < k
        invariant
            i <= k < 64,
            p == pow2(i as nat),
        decreases k - i,
    {
        proof {
            lemma_pow2_adds(i as nat, 1);
            lemma2_to64();
            if i + 1 < 64 {
                lemma_pow2_strictly_increases((i + 1) as nat, 64);
            }
            lemma2_to64_rest();
        }
        p = p * 2;
        i = i + 1;
    }
    p
}

/// The position of the highest set bit, executable.
fn msb_u64(m: u64) -> (r: u64)
    requires
        m >= 1,
    ensures
        r == spec_msb(m as nat),
        r <= 63,
        pow2(r as nat) <= m < pow2((r + 1) as nat),
{
    let mut x: u64 = m;
    let mut k: u64 = 0;
    while x > 1
        invariant
            1 <= x <= m,
            k <= 63,
            spec_msb(m as nat) == k + spec_msb(x as nat),
        decreases x,
    {
        proof {
            lemma_msb_range(m as nat);
            assert(spec_msb(x as nat) == 1 + spec_msb((x / 2) as nat));
            assert(k + 1 <= 63) by {
                if spec_msb((x / 2) as nat) >= 0 && k + 1 > 63 {
                    assert(spec_msb(m as nat) > 63);
                }
            }
        }
        x = x / 2;
        k = k + 1;
    }
    proof {
        lemma_msb_range(m as nat);
        lemma_msb_bounds(m as nat);
    }
    k
}

/// Classifies a decoded number pattern: whole patterns become integers
/// (truncated toward zero, saturating), all others stay numbers.
pub fn classify_number(bits: u64) -> (r: LuaValue)
    ensures
        r@ == spec_classify_number(bits),
{
    proof {
        lemma2_to64();
        lemma2_to64_rest();
    }
    let e: u64 = (bits / 0x10_0000_0000_0000) % 0x800;
    let f: u64 = bits % 0x10_0000_0000_0000;
    let whole: bool = if e == 0x7ff {
        false
    } else if e == 0 {
        f == 0
    } else if e < 1023 {
        false
    } else if e >= 1075 {
        true
    } else {
        f % pow2_u64(1075 - e) == 0
    };
    if !whole {
        return LuaValue::Number(bits);
    }
    let negative: bool = bits >= 0x8000_0000_0000_0000;
    proof {
        assert(f64_sign(bits) == if negative { 1int } else { 0int }) by {
            lemma_fundamental_div_mod(bits as int, 0x8000_0000_0000_0000);
        }
    }
    if e == 0 {
        return LuaValue::Integer(0);
    }
    let sig: u64 = 0x10_0000_0000_0000 + f;
    if e >= 1075 {
        if e > 1086 {
            proof {
                assert(f64_whole_mag(bits) >= pow2(52) * pow2((e - 1075) as nat)) by {
                    lemma_pow2_pos((e - 1075) as nat);
                    lemma_mul_inequality(pow2(52) as int, sig as int, pow2((e - 1075) as nat) as int);
                }
                assert(pow2(52) * pow2((e - 1075) as nat) >= pow2(64)) by {
                    lemma_pow2_adds(52, (e - 1075) as nat);
                    if 52 + e - 1075 > 64 {
                        lemma_pow2_strictly_increases(64, (52 + e - 1075) as nat);
                    }
                }
            }
            return LuaValue::Integer(if negative { i64::MIN } else { i64::MAX });
        }
        let scale = pow2_u64(e - 1075);
        proof {
            assert(sig * scale < pow2(64)) by {
                assert(sig < pow2(53));
                assert(scale <= pow2(11)) by {
                    if e - 1075 < 11 {
                        lemma_pow2_strictly_increases((e - 1075) as nat, 11);
                    }
                }
                lemma_mul_strict_upper_bound(sig as int, pow2(53) as int, scale as int, pow2(11) as int + 1);
                lemma_pow2_adds(53, 11);
            }
        }
        let mag: u64 = sig * scale;
        if negative {
            if mag >= 0x8000_0000_0000_0000 {
                LuaValue::Integer(i64::MIN)
            } else {
                LuaValue::Integer(-(mag as i64))
            }
        } else {
            if mag > 0x7fff_ffff_ffff_ffff {
                LuaValue::Integer(i64::MAX)
            } else {
                LuaValue::Integer(mag as i64)
            }
        }
    } else {
        let scale = pow2_u64(1075 - e);
        let mag: u64 = sig / scale;
        proof {
            lemma_pow2_pos((1075 - e) as nat);
            assert(mag <= sig) by {
                vstd::arithmetic::div_mod::lemma_div_nonincreasing(sig as int, scale as int);
            }
        }
        if negative {
            LuaValue::Integer(-(mag as i64))
        } else {
            LuaValue::Integer(mag as i64)
        }
    }
}

/// Widens an integer to the nearest IEEE-754 binary64 pattern,
/// rounding ties to even.
pub fn integer_to_bits(i: i64) -> (r: u64)
    ensures
        r == i64_to_f64_bits(i),
{
    if i == 0 {
        return 0;
    }
    proof {
        lemma2_to64();
        lemma2_to64_rest();
    }
    let negative = i < 0;
    let m: u64 = if i == i64::MIN {
        0x8000_0000_0000_0000
    } else if negative {
        (-i) as u64
    } else {
        i as u64
    };
    proof {
        assert(m == spec_i64_abs(i));
    }
    let sign_bits: u64 = if negative {
        0x8000_0000_0000_0000
    } else {
        0
    };
    let k = msb_u64(m);
    if k <= 52 {
        let scale = pow2_u64(52 - k);
        proof {
            lemma_pow2_adds(k as nat, (52 - k) as nat);
            lemma_pow2_adds((k + 1) as nat, (52 - k) as nat);
            assert(m * scale < pow2(53)) by {
                lemma_mul_inequality(m as int + 1, pow2((k + 1) as nat) as int, scale as int);
                vstd::arithmetic::mul::lemma_mul_is_distributive_add_other_way(scale as int, m as int, 1);
                lemma_pow2_pos((52 - k) as nat);
            }
            assert(m * scale >= pow2(52)) by {
                lemma_mul_inequality(pow2(k as nat) as int, m as int, scale as int);
            }
        }
        let mant: u64 = m * scale;
        let bits: u64 = sign_bits + (k + 1023) * 0x10_0000_0000_0000 + (mant - 0x10_0000_0000_0000);
        proof {
            let sign: int = if i < 0 { 1int } else { 0int };
            lemma_f64_fields(sign, k as int + 1023, mant as int - pow2(52) as int);
        }
        bits
    } else {
        let psh = pow2_u64(k - 52);
        let q: u64 = m / psh;
        let r: u64 = m % psh;
        let half: u64 = psh / 2;
        proof {
            lemma_pow2_pos((k - 52) as nat);
            assert(half == pow2((k - 53) as nat)) by {
                lemma_pow2_adds((k - 53) as nat, 1);
                lemma_fundamental_div_mod_converse(psh as int, 2, pow2((k - 53) as nat) as int, 0);
            }
            assert(q >= pow2(52)) by {
                vstd::arithmetic::div_mod::lemma_div_is_ordered(pow2(k as nat) as int, m as int, psh as int);
                lemma_pow2_adds(52, (k - 52) as nat);
                vstd::arithmetic::div_mod::lemma_div_by_multiple(pow2(52) as int, psh as int);
            }
            assert(q < pow2(53)) by {
                lemma_pow2_adds(53, (k - 52) as nat);
                vstd::arithmetic::div_mod::lemma_multiply_divide_lt(m as int, psh as int, pow2(53) as int);
            }
        }
        let q2: u64 = if r > half || (r == half && q % 2 == 1) {
            q + 1
        } else {
            q
        };
        let bits: u64 = if q2 == 0x20_0000_0000_0000 {
            sign_bits + (k + 1024) * 0x10_0000_0000_0000
        } else {
            sign_bits + (k + 1023) * 0x10_0000_0000_0000 + (q2 - 0x10_0000_0000_0000)
        };
        proof {
            let sign: int = if i < 0 { 1int } else { 0int };
            if q2 == 0x20_0000_0000_0000 {
                lemma_f64_fields(sign, k as int + 1024, 0);
            } else {
                lemma_f64_fields(sign, k as int + 1023, q2 as int - pow2(52) as int);
            }
        }
        bits
    }
}

/// The widening of an integer always yields a whole pattern.
pub proof fn lemma_to_bits_whole(i: i64)
    ensures
        f64_is_whole(i64_to_f64_bits(i)),
{
    lemma2_to64();
    lemma2_to64_rest();
    if i == 0 {
        assert(f64_exp(0) == 0 && f64_frac(0) == 0);
    } else {
        let sign: int = if i < 0 { 1int } else { 0int };
        let m = spec_i64_abs(i);
        let k = spec_msb(m);
        lemma_msb_bounds(m);
        lemma_msb_range(m);
        if k <= 52 {
            let scale = pow2((52 - k) as nat);
            lemma_pow2_adds(k, (52 - k) as nat);
            lemma_pow2_adds((k + 1) as nat, (52 - k) as nat);
            assert(m * scale < pow2(53)) by {
                lemma_mul_inequality(m as int + 1, pow2((k + 1) as nat) as int, scale as int);
                vstd::arithmetic::mul::lemma_mul_is_distributive_add_other_way(scale as int, m as int, 1);
                lemma_pow2_pos((52 - k) as nat);
            }
            assert(m * scale >= pow2(52)) by {
                lemma_mul_inequality(pow2(k) as int, m as int, scale as int);
            }
            let fr = m * scale - pow2(52);
            lemma_f64_fields(sign, k as int + 1023, fr as int);
            let bits = i64_to_f64_bits(i);
            assert(f64_exp(bits) == k + 1023);
            assert(f64_frac(bits) == fr);
            if k < 52 {
                assert(fr == (m - pow2(k)) * scale) by {
                    vstd::arithmetic::mul::lemma_mul_is_distributive_sub_other_way(
                        scale as int, m as int, pow2(k) as int);
                }
                assert(fr % (scale as int) == 0) by {
                    vstd::arithmetic::div_mod::lemma_mod_multiples_basic(
                        m as int - pow2(k) as int, scale as int);
                }
                assert((1075 - f64_exp(bits)) as nat == (52 - k) as nat);
            }
        } else {
            let sh = (k - 52) as nat;
            let psh = pow2(sh);
            lemma_pow2_pos(sh);
            let q = m / psh;
            assert(q >= pow2(52)) by {
                vstd::arithmetic::div_mod::lemma_div_is_ordered(pow2(k) as int, m as int, psh as int);
                lemma_pow2_adds(52, sh);
                vstd::arithmetic::div_mod::lemma_div_by_multiple(pow2(52) as int, psh as int);
            }
            assert(q < pow2(53)) by {
                lemma_pow2_adds(53, sh);
                vstd::arithmetic::div_mod::lemma_multiply_divide_lt(m as int, psh as int, pow2(53) as int);
            }
            let r = m % psh;
            let half = pow2((sh - 1) as nat);
            let q2: nat = if r > half || (r == half && q % 2 == 1) { q + 1 } else { q };
            if q2 == pow2(53) {
                lemma_f64_fields(sign, k as int + 1024, 0);
            } else {
                lemma_f64_fields(sign, k as int + 1023, q2 as int - pow2(52) as int);
            }
        }
    }
}

/// For a canonical integer, decoding the encoded pattern classifies it back
/// to exactly that integer.
pub proof fn lemma_classify_to_bits(i: i64)
    requires
        f64_trunc_sat(i64_to_f64_bits(i)) == i,
    ensures
        spec_classify_number(i64_to_f64_bits(i)) == LuaVal::Integer(i),
{
    lemma_to_bits_whole(i);
}

/// Integers of magnitude at most 2^53 are canonical: the 53-bit significand
/// holds them exactly, so widening and truncating is the identity.
pub proof fn lemma_small_int_canonical(i: i64)
    requires
        -0x20_0000_0000_0000 <= i <= 0x20_0000_0000_0000,
    ensures
        f64_trunc_sat(i64_to_f64_bits(i)) == i,
{
    lemma2_to64();
    lemma2_to64_rest();
    if i != 0 {
        let sign: int = if i < 0 { 1int } else { 0int };
        let m = spec_i64_abs(i);
        let k = spec_msb(m);
        lemma_msb_bounds(m);
        assert(k <= 53) by {
            if k > 53 {
                lemma_pow2_strictly_increases(53, k);
            }
        }
        let bits = i64_to_f64_bits(i);
        if k <= 52 {
            let scale = pow2((52 - k) as nat);
            lemma_pow2_adds(k, (52 - k) as nat);
            lemma_pow2_adds((k + 1) as nat, (52 - k) as nat);
            assert(m * scale < pow2(53)) by {
                lemma_mul_inequality(m as int + 1, pow2((k + 1) as nat) as int, scale as int);
                vstd::arithmetic::mul::lemma_mul_is_distributive_add_other_way(scale as int, m as int, 1);
                lemma_pow2_pos((52 - k) as nat);
            }
            assert(m * scale >= pow2(52)) by {
                lemma_mul_inequality(pow2(k) as int, m as int, scale as int);
            }
            let fr = m * scale - pow2(52);
            lemma_f64_fields(sign, k as int + 1023, fr as int);
            assert(f64_exp(bits) == k + 1023);
            assert(f64_frac(bits) == fr);
            assert(f64_sign(bits) == sign);
            let sig = pow2(52) + f64_frac(bits);
            assert(sig == m * scale);
            if k < 52 {
                assert(f64_whole_mag(bits) == sig / (pow2((52 - k) as nat) as int));
                assert(sig / (scale as int) == m) by {
                    vstd::arithmetic::div_mod::lemma_div_by_multiple(m as int, scale as int);
                }
            } else {
                assert(f64_whole_mag(bits) == sig * pow2(0));
                assert(scale == 1 && pow2(0) == 1);
                assert(sig == m) by {
                    vstd::arithmetic::mul::lemma_mul_basics(m as int);
                }
                assert(sig * pow2(0) == sig) by {
                    vstd::arithmetic::mul::lemma_mul_basics(sig as int);
                }
            }
            assert(f64_whole_mag(bits) == m);
        } else {
            // k == 53 forces m == 2^53 exactly, which rounds to itself.
            assert(m == pow2(53));
            let sh = (k - 52) as nat;
            assert(sh == 1);
            let psh = pow2(1);
            assert(psh == 2);
            let q = m / 2;
            let r = m % 2;
            assert(q == pow2(52)) by {
                lemma_pow2_adds(52, 1);
                vstd::arithmetic::div_mod::lemma_div_by_multiple(pow2(52) as int, 2);
            }
            assert(r == 0) by {
                lemma_pow2_adds(52, 1);
                vstd::arithmetic::div_mod::lemma_mod_multiples_basic(pow2(52) as int, 2);
            }
            let half = pow2(0);
            assert(half == 1);
            assert(q != pow2(53)) by {
                lemma_pow2_strictly_increases(52, 53);
            }
            lemma_f64_fields(sign, 1076, 0);
            assert(f64_exp(bits) == 1076);
            assert(f64_frac(bits) == 0);
            assert(f64_sign(bits) == sign);
            let sig = pow2(52) + f64_frac(bits);
            assert(f64_whole_mag(bits) == sig * pow2(1));
            assert(f64_whole_mag(bits) == pow2(53)) by {
                lemma_pow2_adds(52, 1);
            }
        }
        assert(f64_whole_mag(bits) == m);
        if i > 0 {
            assert(f64_trunc_sat(bits) == i);
        } else {
            assert(m < 0x8000_0000_0000_0000);
            assert(f64_trunc_sat(bits) == i);
        }
    }
}

} // verus!
