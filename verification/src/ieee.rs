//! Comparing floating-point numbers by their bit patterns.

use vstd::arithmetic::power2::{lemma_pow2_adds, lemma_pow2_pos, lemma_pow2_unfold, pow2};
use vstd::prelude::*;

verus! {

/// The pattern of a double that is not a number.
pub open spec fn is_nan64(x: u64) -> bool {
    x % 0x8000_0000_0000_0000 > 0x7ff0_0000_0000_0000
}

/// Orders doubles as their values do; both zeros are zero.
pub open spec fn key64(x: u64) -> int {
    if x < 0x8000_0000_0000_0000 {
        x as int
    } else {
        0x8000_0000_0000_0000 - x
    }
}

/// The double `a` is less than the double `b`.
pub open spec fn less64(a: u64, b: u64) -> bool {
    !is_nan64(a) && !is_nan64(b) && key64(a) < key64(b)
}

/// The double `a` is at least the double `b`.
pub open spec fn at_least64(a: u64, b: u64) -> bool {
    !is_nan64(a) && !is_nan64(b) && key64(a) >= key64(b)
}

fn order64(x: u64) -> (k: i128)
    ensures
        k == key64(x),
{
    if x < 0x8000_0000_0000_0000 {
        x as i128
    } else {
        0x8000_0000_0000_0000i128 - x as i128
    }
}

fn nan64(x: u64) -> (b: bool)
    ensures
        b == is_nan64(x),
{
    x % 0x8000_0000_0000_0000 > 0x7ff0_0000_0000_0000
}

/// Whether the double `a` is less than the double `b`.
pub fn lt64(a: u64, b: u64) -> (r: bool)
    ensures
        r == less64(a, b),
{
    !nan64(a) && !nan64(b) && order64(a) < order64(b)
}

/// Whether the double `a` is at least the double `b`.
pub fn ge64(a: u64, b: u64) -> (r: bool)
    ensures
        r == at_least64(a, b),
{
    !nan64(a) && !nan64(b) && order64(a) >= order64(b)
}

/// The pattern of a single that is not a number.
pub open spec fn is_nan32(x: u32) -> bool {
    x % 0x8000_0000 > 0x7f80_0000
}

/// Orders singles as their values do; both zeros are zero.
pub open spec fn key32(x: u32) -> int {
    if x < 0x8000_0000 {
        x as int
    } else {
        0x8000_0000 - x
    }
}

/// The single `a` is less than the single `b`.
pub open spec fn less32(a: u32, b: u32) -> bool {
    !is_nan32(a) && !is_nan32(b) && key32(a) < key32(b)
}

/// The single `a` is at least the single `b`.
pub open spec fn at_least32(a: u32, b: u32) -> bool {
    !is_nan32(a) && !is_nan32(b) && key32(a) >= key32(b)
}

fn order32(x: u32) -> (k: i64)
    ensures
        k == key32(x),
{
    if x < 0x8000_0000 {
        x as i64
    } else {
        0x8000_0000i64 - x as i64
    }
}

fn nan32(x: u32) -> (b: bool)
    ensures
        b == is_nan32(x),
{
    x % 0x8000_0000 > 0x7f80_0000
}

/// Whether the single `a` is less than the single `b`.
pub fn lt32(a: u32, b: u32) -> (r: bool)
    ensures
        r == less32(a, b),
{
    !nan32(a) && !nan32(b) && order32(a) < order32(b)
}

/// Whether the single `a` is at least the single `b`.
pub fn ge32(a: u32, b: u32) -> (r: bool)
    ensures
        r == at_least32(a, b),
{
    !nan32(a) && !nan32(b) && order32(a) >= order32(b)
}

/// What a finite double stands for, without its sign, in units of its smallest positive
/// value (two to the power of -1074).
pub open spec fn magnitude64(x: u64) -> nat {
    let exponent = (x % 0x8000_0000_0000_0000) as nat / 0x10_0000_0000_0000;
    let mantissa = x as nat % 0x10_0000_0000_0000;
    if exponent == 0 {
        mantissa
    } else {
        (0x10_0000_0000_0000 + mantissa) * pow2((exponent - 1) as nat)
    }
}

/// What a finite double stands for, in the same units.
pub open spec fn value64(x: u64) -> int {
    if x / 0x8000_0000_0000_0000 == 1 {
        -(magnitude64(x) as int)
    } else {
        magnitude64(x) as int
    }
}

proof fn lemma_larger_exponent(a: u64, b: u64)
    requires
        (a % 0x8000_0000_0000_0000) as nat / 0x10_0000_0000_0000 < (b
            % 0x8000_0000_0000_0000) as nat / 0x10_0000_0000_0000,
    ensures
        magnitude64(a) < magnitude64(b),
{
    let ea = (a % 0x8000_0000_0000_0000) as nat / 0x10_0000_0000_0000;
    let eb = (b % 0x8000_0000_0000_0000) as nat / 0x10_0000_0000_0000;
    let ma = a as int % 0x10_0000_0000_0000;
    let mb = b as int % 0x10_0000_0000_0000;
    let q = pow2((eb - 1) as nat) as int;
    lemma_pow2_pos((eb - 1) as nat);
    if ea == 0 {
        assert((0x10_0000_0000_0000 + mb) * q >= 0x10_0000_0000_0000) by (nonlinear_arith)
            requires
                mb >= 0,
                q >= 1,
        ;
    } else {
        let p = pow2((ea - 1) as nat) as int;
        let d = pow2((eb - ea) as nat) as int;
        lemma_pow2_pos((ea - 1) as nat);
        lemma_pow2_adds((ea - 1) as nat, (eb - ea) as nat);
        lemma_pow2_pos((eb - ea - 1) as nat);
        lemma_pow2_unfold((eb - ea) as nat);
        assert((0x10_0000_0000_0000 + ma) * p < (0x10_0000_0000_0000 + mb) * q)
            by (nonlinear_arith)
            requires
                q == p * d,
                d >= 2,
                p >= 1,
                0 <= ma < 0x10_0000_0000_0000,
                mb >= 0,
        ;
    }
}

proof fn lemma_magnitudes_order(a: u64, b: u64)
    ensures
        magnitude64(a) < magnitude64(b) <==> a as int % 0x8000_0000_0000_0000 < b as int
            % 0x8000_0000_0000_0000,
{
    let ea = (a % 0x8000_0000_0000_0000) as nat / 0x10_0000_0000_0000;
    let eb = (b % 0x8000_0000_0000_0000) as nat / 0x10_0000_0000_0000;
    let ma = a as int % 0x10_0000_0000_0000;
    let mb = b as int % 0x10_0000_0000_0000;
    assert((a as int % 0x8000_0000_0000_0000) % 0x10_0000_0000_0000 == ma);
    assert((b as int % 0x8000_0000_0000_0000) % 0x10_0000_0000_0000 == mb);
    if ea < eb {
        lemma_larger_exponent(a, b);
    } else if eb < ea {
        lemma_larger_exponent(b, a);
    } else if ea > 0 {
        let p = pow2((ea - 1) as nat) as int;
        lemma_pow2_pos((ea - 1) as nat);
        assert((0x10_0000_0000_0000 + ma) * p < (0x10_0000_0000_0000 + mb) * p <==> ma < mb)
            by (nonlinear_arith)
            requires
                p > 0,
        ;
    }
}

/// A double that is infinite.
pub open spec fn is_infinite64(x: u64) -> bool {
    x % 0x8000_0000_0000_0000 == 0x7ff0_0000_0000_0000
}

/// Comparing bit patterns of finite doubles compares what they stand for; infinities lie
/// outside all finite ones, and what is not a number compares with nothing.
pub proof fn law_patterns_of_doubles_compare_as_values(a: u64, b: u64)
    ensures
        is_nan64(a) || is_nan64(b) ==> !less64(a, b) && !at_least64(a, b),
        !is_nan64(a) && !is_nan64(b) ==> at_least64(a, b) == !less64(a, b),
        !is_nan64(a) && !is_nan64(b) && !is_infinite64(a) && !is_infinite64(b) ==> (less64(a, b)
            <==> value64(a) < value64(b)),
        is_infinite64(b) && b < 0x8000_0000_0000_0000 && !is_nan64(a) ==> (less64(a, b) <==> a
            != b),
        is_infinite64(a) && a >= 0x8000_0000_0000_0000 && !is_nan64(b) ==> (less64(a, b) <==> a
            != b),
{
    lemma_magnitudes_order(a, b);
    lemma_magnitudes_order(b, a);
    lemma_magnitudes_order(0, a);
    lemma_magnitudes_order(0, b);
    assert(magnitude64(0) == 0);
}

} // verus!
