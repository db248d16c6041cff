//! Half-precision numbers, as bit patterns.

use crate::ieee::{at_least32, is_nan32, less32};
use vstd::arithmetic::power2::{
    lemma2_to64, lemma_pow2_adds, lemma_pow2_pos, lemma_pow2_unfold, pow2,
};
use vstd::prelude::*;

verus! {

pub open spec fn is_nan16(h: u16) -> bool {
    h % 0x8000 > 0x7c00
}

pub open spec fn is_infinite16(h: u16) -> bool {
    h % 0x8000 == 0x7c00
}

pub open spec fn is_infinite32(s: u32) -> bool {
    s % 0x8000_0000 == 0x7f80_0000
}

/// What a finite half stands for, without its sign, in units of its smallest
/// positive value (two to the power of -24).
pub open spec fn magnitude16(h: u16) -> nat {
    let exponent = (h % 0x8000) as nat / 0x400;
    let mantissa = h as nat % 0x400;
    if exponent == 0 {
        mantissa
    } else {
        (0x400 + mantissa) * pow2((exponent - 1) as nat)
    }
}

/// What a finite single stands for, without its sign, in units of its smallest
/// positive value (two to the power of -149).
pub open spec fn magnitude32(s: u32) -> nat {
    let exponent = (s % 0x8000_0000) as nat / 0x80_0000;
    let mantissa = s as nat % 0x80_0000;
    if exponent == 0 {
        mantissa
    } else {
        (0x80_0000 + mantissa) * pow2((exponent - 1) as nat)
    }
}

/// The single `s` stands for what the half `h` stands for.  What is not a number
/// stays so, quiet, with its sign and the rest of its mantissa.
pub open spec fn widens(h: u16, s: u32) -> bool {
    &&& s / 0x8000_0000 == h / 0x8000
    &&& is_infinite32(s) <==> is_infinite16(h)
    &&& is_nan16(h) ==> s % 0x8000_0000 == 0x7fc0_0000 + (h % 0x200) * 0x2000
    &&& !is_nan16(h) && !is_infinite16(h) ==> {
        &&& !is_nan32(s)
        &&& magnitude32(s) == magnitude16(h) * pow2(125)
    }
}

/// The single-precision number that a half stands for.
pub fn widen(h: u16) -> (s: u32)
    ensures
        widens(h, s),
{
    let sign: u32 = (h / 0x8000) as u32 * 0x8000_0000;
    let exponent: u32 = ((h % 0x8000) / 0x400) as u32;
    let mantissa: u32 = (h % 0x400) as u32;
    if exponent == 31 {
        if mantissa == 0 {
            return sign + 0x7f80_0000;
        }
        return sign + 0x7fc0_0000 + (mantissa % 0x200) * 0x2000;
    }
    if exponent == 0 {
        if mantissa == 0 {
            assert(magnitude16(h) == 0);
            assert(magnitude32(sign) == 0);
            assert(0 * pow2(125) == 0) by (nonlinear_arith);
            return sign;
        }
        let mut m: u32 = mantissa;
        let mut shift: u32 = 0;
        proof {
            lemma2_to64();
        }
        while m < 0x400
            invariant
                0 < mantissa < 0x400,
                0 < m < 0x800,
                m == mantissa * pow2(shift as nat),
                shift <= 10,
                m >= pow2(shift as nat),
            decreases 0x800 - m,
        {
            proof {
                lemma_pow2_unfold(shift as nat + 1);
                let p = pow2(shift as nat) as int;
                assert(mantissa * (2 * p) == 2 * (mantissa * p)) by (nonlinear_arith);
                if shift == 10 {
                    lemma2_to64();
                }
            }
            m = m * 2;
            shift = shift + 1;
        }
        let s: u32 = sign + (113 - shift) * 0x80_0000 + (m - 0x400) * 0x2000;
        proof {
            let rest = (112 - shift) as nat;
            assert((s % 0x8000_0000) as nat / 0x80_0000 == rest + 1);
            assert(s as nat % 0x80_0000 == (m - 0x400) * 0x2000);
            assert(magnitude32(s) == (m * 0x2000) * pow2(rest));
            lemma_pow2_adds(shift as nat, rest);
            lemma_pow2_adds(13, 112);
            lemma2_to64();
            let a = pow2(shift as nat) as int;
            let b = pow2(rest) as int;
            assert(((mantissa * a) * 0x2000) * b == mantissa * (0x2000 * (a * b)))
                by (nonlinear_arith);
        }
        return s;
    }
    let s: u32 = sign + (exponent + 112) * 0x80_0000 + mantissa * 0x2000;
    proof {
        let e = exponent as nat;
        assert((s % 0x8000_0000) as nat / 0x80_0000 == e + 112);
        assert(s as nat % 0x80_0000 == mantissa * 0x2000);
        lemma_pow2_adds((e - 1) as nat, 112);
        lemma_pow2_adds(13, 112);
        lemma2_to64();
        let a = pow2((e - 1) as nat) as int;
        let b = pow2(112) as int;
        let m = (0x400 + mantissa) as int;
        assert((m * 0x2000) * (a * b) == (m * a) * (0x2000 * b)) by (nonlinear_arith);
    }
    s
}

/// Sign and value fix a finite single.
pub proof fn law_value_fixes_single(a: u32, b: u32)
    requires
        !is_nan32(a) && !is_infinite32(a),
        !is_nan32(b) && !is_infinite32(b),
        a / 0x8000_0000 == b / 0x8000_0000,
        magnitude32(a) == magnitude32(b),
    ensures
        a == b,
{
    let ea = (a % 0x8000_0000) as nat / 0x80_0000;
    let eb = (b % 0x8000_0000) as nat / 0x80_0000;
    if ea < eb {
        lemma_exponent_orders(a, b);
    } else if eb < ea {
        lemma_exponent_orders(b, a);
    } else if ea > 0 {
        let p = pow2((ea - 1) as nat) as int;
        lemma_pow2_pos((ea - 1) as nat);
        let ma = 0x80_0000 + a as int % 0x80_0000;
        let mb = 0x80_0000 + b as int % 0x80_0000;
        assert(ma == mb) by (nonlinear_arith)
            requires
                ma * p == mb * p,
                p > 0,
        ;
    }
}

proof fn lemma_exponent_orders(a: u32, b: u32)
    requires
        (a % 0x8000_0000) as nat / 0x80_0000 < (b % 0x8000_0000) as nat / 0x80_0000,
    ensures
        magnitude32(a) < magnitude32(b),
{
    let ea = (a % 0x8000_0000) as nat / 0x80_0000;
    let eb = (b % 0x8000_0000) as nat / 0x80_0000;
    let ma = a as int % 0x80_0000;
    let mb = b as int % 0x80_0000;
    let q = pow2((eb - 1) as nat) as int;
    lemma_pow2_pos((eb - 1) as nat);
    if ea == 0 {
        assert((0x80_0000 + mb) * q >= 0x80_0000) by (nonlinear_arith)
            requires
                mb >= 0,
                q >= 1,
        ;
    } else {
        let p = pow2((ea - 1) as nat) as int;
        lemma_pow2_pos((ea - 1) as nat);
        lemma_pow2_adds((ea - 1) as nat, (eb - ea) as nat);
        lemma_pow2_pos((eb - ea - 1) as nat);
        lemma_pow2_unfold((eb - ea) as nat);
        let d = pow2((eb - ea) as nat) as int;
        assert((0x80_0000 + ma) * p < (0x80_0000 + mb) * q) by (nonlinear_arith)
            requires
                q == p * d,
                d >= 2,
                p >= 1,
                0 <= ma < 0x80_0000,
                mb >= 0,
        ;
    }
}

/// What a finite single stands for, in units of its smallest positive value.
pub open spec fn value32(s: u32) -> int {
    if s / 0x8000_0000 == 1 {
        -(magnitude32(s) as int)
    } else {
        magnitude32(s) as int
    }
}

proof fn lemma_magnitude_orders(a: u32, b: u32)
    ensures
        magnitude32(a) < magnitude32(b) <==> a as int % 0x8000_0000 < b as int % 0x8000_0000,
{
    let ea = (a % 0x8000_0000) as nat / 0x80_0000;
    let eb = (b % 0x8000_0000) as nat / 0x80_0000;
    let ma = a as int % 0x80_0000;
    let mb = b as int % 0x80_0000;
    assert((a as int % 0x8000_0000) % 0x80_0000 == ma);
    assert((b as int % 0x8000_0000) % 0x80_0000 == mb);
    if ea < eb {
        lemma_exponent_orders(a, b);
    } else if eb < ea {
        lemma_exponent_orders(b, a);
    } else if ea > 0 {
        let p = pow2((ea - 1) as nat) as int;
        lemma_pow2_pos((ea - 1) as nat);
        assert((0x80_0000 + ma) * p < (0x80_0000 + mb) * p <==> ma < mb) by (nonlinear_arith)
            requires
                p > 0,
        ;
    }
}

/// Comparing bit patterns of finite singles compares what they stand for; infinities
/// lie outside all finite ones, and what is not a number compares with nothing.
pub proof fn law_patterns_compare_as_values(a: u32, b: u32)
    ensures
        is_nan32(a) || is_nan32(b) ==> !less32(a, b) && !at_least32(a, b),
        !is_nan32(a) && !is_nan32(b) ==> at_least32(a, b) == !less32(a, b),
        !is_nan32(a) && !is_nan32(b) && !is_infinite32(a) && !is_infinite32(b) ==> (less32(a, b)
            <==> value32(a) < value32(b)),
        is_infinite32(b) && b < 0x8000_0000 && !is_nan32(a) ==> (less32(a, b) <==> a != b),
        is_infinite32(a) && a >= 0x8000_0000 && !is_nan32(b) ==> (less32(a, b) <==> a != b),
{
    lemma_magnitude_orders(a, b);
    lemma_magnitude_orders(b, a);
    lemma_magnitude_orders(0, a);
    lemma_magnitude_orders(0, b);
    assert(magnitude32(0) == 0);
}

/// Where a half is finite, the next pattern stands for the next value: both lie one unit
/// of the exponent apart.  Zero stands for nothing, and the sign does not change the
/// magnitude.
pub proof fn law_halves_count_up(h: u16)
    requires
        h < 0x7bff,
    ensures
        magnitude16(0) == 0,
        magnitude16((h + 1) as u16) == magnitude16(h) + pow2(
            (if h < 0x800 {
                0int
            } else {
                h as int / 0x400 - 1
            }) as nat,
        ),
        magnitude16((h + 0x8000) as u16) == magnitude16(h),
{
    let e = h as nat / 0x400;
    let m = h as nat % 0x400;
    let k = (h + 1) as u16;
    lemma2_to64();
    assert(k % 0x8000 == h + 1);
    assert(h % 0x8000 == h);
    if m == 0x3ff {
        assert(k as nat / 0x400 == e + 1);
        assert(k as nat % 0x400 == 0);
        if e > 0 {
            lemma_pow2_unfold(e);
            let p = pow2((e - 1) as nat) as int;
            assert((0x400 + 0) * (2 * p) == (0x400 + 0x3ff) * p + p) by (nonlinear_arith);
            assert(0x400 * pow2(e) == 0x400 * (2 * p));
        } else {
            assert(0x400 * pow2(0) == 0x400);
        }
    } else {
        assert(k as nat / 0x400 == e);
        assert(k as nat % 0x400 == m + 1);
        if e > 0 {
            let p = pow2((e - 1) as nat) as int;
            let x = m as int;
            assert((0x400 + x + 1) * p == (0x400 + x) * p + p) by (nonlinear_arith);
        }
    }
    let n = (h + 0x8000) as u16;
    assert(n % 0x8000 == h);
    assert(n as nat % 0x400 == m);
}

/// Patterns with all exponent bits set stand for infinity where the rest is zero and for
/// no number where it is not; all others are finite.
pub proof fn law_halves_have_classes(h: u16)
    ensures
        is_infinite16(h) <==> h as int / 0x400 % 32 == 31 && h as int % 0x400 == 0,
        is_nan16(h) <==> h as int / 0x400 % 32 == 31 && h as int % 0x400 != 0,
        !(is_infinite16(h) && is_nan16(h)),
{
}

/// A half and the single that it widens to have the same sign and the same class; what is
/// not a number keeps the bits of its mantissa below the quiet one.
pub proof fn law_widening_keeps_sign_and_class(h: u16, s: u32)
    requires
        widens(h, s),
    ensures
        h >= 0x8000 <==> s >= 0x8000_0000,
        is_infinite32(s) <==> is_infinite16(h),
        is_nan32(s) <==> is_nan16(h),
        is_nan16(h) ==> s as int / 0x40_0000 % 2 == 1 && s as int / 0x2000 % 0x200 == h as int
            % 0x200 && s as int % 0x2000 == 0,
{
}

} // verus!
