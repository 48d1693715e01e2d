//! The share of key items that the open strategy places in one step.
//!
//! The share is a ratio of counts scaled by another count and rounded up, where the
//! quotient and the product are each rounded to single precision: twenty-four
//! significant bits, to nearest, ties to even. Counts stay below 2^24, so they are exact
//! in single precision, and the whole computation is carried out on integers.
use vstd::arithmetic::power2::{
    lemma2_to64, lemma_pow2_adds, lemma_pow2_pos, lemma_pow2_strictly_increases, lemma_pow2_unfold,
    pow2,
};
use vstd::prelude::*;

verus! {

/// Counts below this bound are exact in single precision.
pub const EXACT: u64 = 0x100_0000;

/// The smallest integer with twenty-four significant bits.
pub const NORMAL: u64 = 0x80_0000;

/// `num / den` rounded to the nearest integer, ties to even.
pub open spec fn nearest(num: int, den: int) -> int {
    let quotient = num / den;
    let remainder = num % den;
    if 2 * remainder < den || (2 * remainder == den && quotient % 2 == 0) {
        quotient
    } else {
        quotient + 1
    }
}

/// `num / den` rounded up.
pub open spec fn ceiling(num: int, den: int) -> int {
    (num + den - 1) / den
}

/// The least power of two that brings `num / den` up to twenty-four bits before the point.
pub open spec fn magnifier(num: int, den: int) -> int
    decreases
        if num < NORMAL * den {
            NORMAL * den - num
        } else {
            0
        },
{
    if num <= 0 || num >= NORMAL * den {
        1
    } else {
        2 * magnifier(2 * num, den)
    }
}

/// The least power of two that brings `value` down to at most twenty-four bits.
pub open spec fn reducer(value: int) -> int
    decreases value,
{
    if value < EXACT {
        1
    } else {
        2 * reducer(value / 2)
    }
}

/// The ceiling of `part / whole * places` in single precision.
///
/// The quotient is `significand / scale`; its product with `places` is
/// `product * step / scale`.
pub open spec fn single_share(part: int, whole: int, places: int) -> int {
    let scale = magnifier(part, whole);
    let significand = nearest(part * scale, whole);
    let step = reducer(significand * places);
    let product = nearest(significand * places, step);
    ceiling(product * step, scale)
}

fn round_nearest(num: u64, den: u64) -> (r: u64)
    requires
        0 < den < 0x1000_0000_0000_0000,
        num < 0x1000_0000_0000_0000,
    ensures
        r == nearest(num as int, den as int),
        num >= den ==> r >= 1,
        r <= num / den + 1,
{
    let quotient: u64 = num / den;
    let remainder: u64 = num % den;
    assert(num >= den ==> quotient >= 1) by (nonlinear_arith)
        requires
            quotient == num / den,
            den > 0,
    ;
    assert(quotient <= num) by (nonlinear_arith)
        requires
            quotient == num / den,
            den > 0,
    ;
    if 2 * remainder < den || (2 * remainder == den && quotient % 2 == 0) {
        quotient
    } else {
        quotient + 1
    }
}

/// `value / 2 / p == value / (2 * p)`, the step that both halving loops rest on.
proof fn lemma_halve(value: int, p: int)
    requires
        value >= 0,
        p > 0,
    ensures
        (value / p) / 2 == value / (2 * p),
{
    vstd::arithmetic::div_mod::lemma_div_denominator(value, p, 2);
    assert(p * 2 == 2 * p);
}

/// Doubles `num` until `num / den` has twenty-four bits before the point.
fn magnify(num: u64, den: u64) -> (r: (u64, u64))
    requires
        0 < num < EXACT,
        0 < den < EXACT,
        num <= den,
    ensures
        r.1 == magnifier(num as int, den as int),
        r.0 == num * r.1,
        NORMAL * den <= r.0 < EXACT * den,
        r.1 >= 1,
{
    let mut grown: u64 = num;
    let mut scale: u64 = 1;
    while grown < NORMAL * den
        invariant
            0 < num <= grown,
            0 < den < EXACT,
            num <= den,
            grown < EXACT * den,
            scale >= 1,
            grown == num * scale,
            magnifier(num as int, den as int) == scale * magnifier(grown as int, den as int),
        decreases EXACT * den - grown,
    {
        assert(magnifier(grown as int, den as int) == 2 * magnifier(2 * grown, den as int));
        let ghost rest = magnifier(2 * grown, den as int);
        assert(scale * (2 * rest) == (2 * scale) * rest) by (nonlinear_arith);
        assert(num * (2 * scale) == 2 * (num * scale)) by (nonlinear_arith);
        assert(scale <= num * scale) by (nonlinear_arith)
            requires
                num >= 1,
                scale >= 1,
        ;
        grown = 2 * grown;
        scale = 2 * scale;
    }
    assert(scale * 1 == scale) by (nonlinear_arith);
    (grown, scale)
}

/// The power of two by which `value` has to be divided to fit in twenty-four bits.
fn reduce(value: u64) -> (r: u64)
    requires
        0 < value < 0x1000_0000_0000_0000,
    ensures
        r == reducer(value as int),
        1 <= r <= value,
{
    let mut rest: u64 = value;
    let mut step: u64 = 1;
    while rest >= EXACT
        invariant
            0 < value < 0x1000_0000_0000_0000,
            1 <= step <= value,
            rest == value / step,
            rest >= 1,
            reducer(value as int) == step * reducer(rest as int),
        decreases rest,
    {
        let ghost tail = reducer(rest as int / 2);
        assert(reducer(rest as int) == 2 * tail);
        assert(step * (2 * tail) == (2 * step) * tail) by (nonlinear_arith);
        proof {
            lemma_halve(value as int, step as int);
        }
        assert(2 * step <= value) by (nonlinear_arith)
            requires
                rest == value / step,
                rest >= 2,
                step >= 1,
        ;
        rest = rest / 2;
        step = 2 * step;
    }
    assert(step * 1 == step) by (nonlinear_arith);
    step
}

proof fn lemma_magnifier(num: int, den: int)
    requires
        num > 0,
        den > 0,
    ensures
        magnifier(num, den) >= 1,
        num * magnifier(num, den) >= NORMAL * den,
    decreases
        if num < NORMAL * den {
            NORMAL * den - num
        } else {
            0
        },
{
    if num < NORMAL * den {
        lemma_magnifier(2 * num, den);
        let rest = magnifier(2 * num, den);
        assert(num * (2 * rest) == (2 * num) * rest) by (nonlinear_arith);
    } else {
        assert(num * 1 == num) by (nonlinear_arith);
    }
}

proof fn lemma_reducer(value: int)
    requires
        value >= 1,
    ensures
        1 <= reducer(value) <= value,
    decreases value,
{
    if value >= EXACT {
        lemma_reducer(value / 2);
    }
}

proof fn lemma_nearest_positive(num: int, den: int)
    requires
        1 <= den <= num,
    ensures
        nearest(num, den) >= 1,
{
    assert(num / den >= 1) by (nonlinear_arith)
        requires
            1 <= den <= num,
    ;
}

/// A share of at least one place of a nonempty part is never empty.
pub proof fn lemma_share_positive(part: int, whole: int, places: int)
    requires
        1 <= part,
        1 <= whole,
        1 <= places,
    ensures
        single_share(part, whole, places) >= 1,
{
    lemma_magnifier(part, whole);
    let scale = magnifier(part, whole);
    lemma_nearest_positive(part * scale, whole);
    let significand = nearest(part * scale, whole);
    assert(significand * places >= 1) by (nonlinear_arith)
        requires
            significand >= 1,
            places >= 1,
    ;
    lemma_reducer(significand * places);
    let step = reducer(significand * places);
    lemma_nearest_positive(significand * places, step);
    let product = nearest(significand * places, step);
    assert(product * step >= 1) by (nonlinear_arith)
        requires
            product >= 1,
            step >= 1,
    ;
    assert(ceiling(product * step, scale) >= 1) by (nonlinear_arith)
        requires
            product * step >= 1,
            scale >= 1,
            ceiling(product * step, scale) == (product * step + scale - 1) / scale,
    ;
}

/// The number of key items to place: the part of `whole` that `part` makes up, taken of
/// `places` and rounded up, as single precision computes it.
pub fn key_item_share(part: usize, whole: usize, places: usize) -> (share: usize)
    requires
        1 <= part <= whole < EXACT,
        1 <= places < EXACT,
    ensures
        share == single_share(part as int, whole as int, places as int),
        share >= 1,
{
    let (grown, scale) = magnify(part as u64, whole as u64);
    let den: u64 = whole as u64;
    let significand: u64 = round_nearest(grown, den);
    let count: u64 = places as u64;
    assert(grown >= den);
    assert((grown as int) / (den as int) <= scale) by (nonlinear_arith)
        requires
            grown == part * scale,
            part <= den,
            den > 0,
    ;
    assert((grown as int) / (den as int) < EXACT) by (nonlinear_arith)
        requires
            grown < EXACT * den,
            den > 0,
    ;
    assert(1 <= significand * count <= 0x1_0000_0000_0000) by (nonlinear_arith)
        requires
            1 <= significand <= 0x100_0000,
            1 <= count <= 0x100_0000,
    ;
    let value: u64 = significand * count;
    let step: u64 = reduce(value);
    let product: u64 = round_nearest(value, step);
    assert(1 <= product * step <= 2 * value) by (nonlinear_arith)
        requires
            1 <= product <= value / step + 1,
            1 <= step <= value,
    ;
    let scaled: u64 = product * step;
    assert(scale <= part * scale) by (nonlinear_arith)
        requires
            part >= 1,
            scale >= 1,
    ;
    let share: u64 = (scaled + scale - 1) / scale;
    assert(share <= 4 * count + 1 && share >= 1) by (nonlinear_arith)
        requires
            share == (scaled + scale - 1) / (scale as int),
            1 <= scaled <= 2 * (significand * count),
            significand <= scale + 1,
            scale >= 1,
            count >= 1,
    {
        assert(significand * count <= (scale + 1) * count);
        assert((scale + 1) * count <= 2 * (scale * count));
        assert(scaled + scale - 1 < scale * (4 * count + 1));
        assert(share >= 1) by {
            assert(scaled + scale - 1 >= scale);
        }
    }
    share as usize
}

proof fn lemma_reducer_bound(value: int)
    requires
        value >= NORMAL,
    ensures
        reducer(value) >= 1,
        reducer(value) == 1 || reducer(value) * NORMAL <= value,
        reducer(value) * NORMAL <= value,
    decreases value,
{
    if value >= EXACT {
        lemma_reducer_bound(value / 2);
    }
}

proof fn lemma_nearest_error(num: int, den: int)
    requires
        den > 0,
        num >= 0,
    ensures
        -den <= 2 * (nearest(num, den) * den - num) <= den,
{
    let q = num / den;
    let r = num % den;
    vstd::arithmetic::div_mod::lemma_fundamental_div_mod(num, den);
    vstd::arithmetic::div_mod::lemma_mod_bound(num, den);
    assert(q * den + r == num) by (nonlinear_arith)
        requires
            num == den * q + r,
    ;
    assert((q + 1) * den == q * den + den) by (nonlinear_arith);
}

/// Whatever is lost in rounding, the share is the exact share rounded up: as many places as it
/// stands for make up at least the part, and one place fewer does not make up more.
pub proof fn law_share_is_rounded_up(part: int, whole: int, places: int)
    requires
        1 <= part <= whole,
        1 <= places,
        whole * places < 0x40_0000,
    ensures
        single_share(part, whole, places) * whole >= part * places,
        (single_share(part, whole, places) - 1) * whole <= part * places,
{
    let scale = magnifier(part, whole);
    let significand = nearest(part * scale, whole);
    let value = significand * places;
    let step = reducer(value);
    let product = nearest(value, step);
    let scaled = product * step;
    let share = ceiling(scaled, scale);
    let normal = NORMAL as int;
    lemma_magnifier(part, whole);
    assert(part * scale >= normal * whole);
    assert(scale >= normal) by (nonlinear_arith)
        requires
            part * scale >= normal * whole,
            1 <= part <= whole,
            normal == 0x80_0000,
    ;
    assert(part * scale >= 0) by (nonlinear_arith)
        requires
            part >= 1,
            scale >= 1,
    ;
    lemma_nearest_error(part * scale, whole);
    let e = significand * whole - part * scale;
    assert(significand >= normal) by (nonlinear_arith)
        requires
            -whole <= 2 * (significand * whole - part * scale),
            part * scale >= normal * whole,
            whole >= 1,
    ;
    assert(value >= normal) by (nonlinear_arith)
        requires
            value == significand * places,
            significand >= normal,
            places >= 1,
            normal >= 0,
    ;
    lemma_reducer_bound(value);
    lemma_nearest_error(value, step);
    let d = scaled - value;
    assert(-step <= 2 * d <= step);
    // What rounding moved, on the common denominator.
    let moved = scaled * whole - part * places * scale;
    assert(moved == d * whole + e * places) by (nonlinear_arith)
        requires
            moved == scaled * whole - part * places * scale,
            d == scaled - significand * places,
            e == significand * whole - part * scale,
    ;
    assert(-(step * whole) <= 2 * (d * whole) <= step * whole) by (nonlinear_arith)
        requires
            -step <= 2 * d <= step,
            whole >= 1,
    ;
    assert(-(whole * places) <= 2 * (e * places) <= whole * places) by (nonlinear_arith)
        requires
            -whole <= 2 * e <= whole,
            places >= 1,
    ;
    // The step is small against the scale.
    assert(step * whole * normal <= value * whole) by (nonlinear_arith)
        requires
            step * normal <= value,
            whole >= 1,
    ;
    assert(value * whole == part * scale * places + e * places) by (nonlinear_arith)
        requires
            value == significand * places,
            e == significand * whole - part * scale,
    ;
    assert(part * scale * places <= whole * places * scale) by (nonlinear_arith)
        requires
            1 <= part <= whole,
            scale >= 1,
            places >= 1,
    ;
    assert(whole * places * scale <= 0x40_0000 * scale) by (nonlinear_arith)
        requires
            whole * places < 0x40_0000,
            scale >= 1,
    ;
    assert(step * whole * normal <= 0x40_0000 * scale + 0x20_0000);
    assert(step * whole <= scale) by (nonlinear_arith)
        requires
            step * whole * normal <= 0x40_0000 * scale + 0x20_0000,
            normal == 0x80_0000,
            scale >= normal,
    ;
    assert(-scale < moved < scale);
    // The share times the scale lies within one scale above what was rounded.
    assert(scaled <= share * scale < scaled + scale) by (nonlinear_arith)
        requires
            share == (scaled + scale - 1) / scale,
            scale >= 1,
    ;
    assert(share * whole * scale >= scaled * whole) by (nonlinear_arith)
        requires
            scaled <= share * scale,
            whole >= 1,
    ;
    assert((share - 1) * whole * scale <= scaled * whole) by (nonlinear_arith)
        requires
            share * scale < scaled + scale,
            whole >= 1,
    ;
    let exact = part * places;
    assert(share * whole >= exact) by (nonlinear_arith)
        requires
            share * whole * scale >= scaled * whole,
            scaled * whole - exact * scale > -scale,
            scale >= 1,
    ;
    assert((share - 1) * whole <= exact) by (nonlinear_arith)
        requires
            (share - 1) * whole * scale <= scaled * whole,
            scaled * whole - exact * scale < scale,
            scale >= 1,
    ;
}

proof fn lemma_magnifier_power(num: int, den: int) -> (k: nat)
    requires
        num > 0,
        den > 0,
    ensures
        magnifier(num, den) == pow2(k),
    decreases
        if num < NORMAL * den {
            NORMAL * den - num
        } else {
            0
        },
{
    if num < NORMAL * den {
        let k = lemma_magnifier_power(2 * num, den);
        lemma_pow2_unfold(k + 1);
        k + 1
    } else {
        lemma2_to64();
        0
    }
}

/// Doubling a number of up to twenty-four bits loses nothing.
proof fn lemma_reducer_exact(m: int, j: nat) -> (rest: int)
    requires
        0 <= m < EXACT,
    ensures
        reducer(m * pow2(j)) >= 1,
        rest >= 0,
        rest * reducer(m * pow2(j)) == m * pow2(j),
    decreases j,
{
    let value = m * pow2(j);
    assert(value >= 0) by (nonlinear_arith)
        requires
            value == m * pow2(j),
            m >= 0,
    ;
    if value < EXACT {
        assert(value * 1 == value) by (nonlinear_arith);
        value
    } else if j == 0 {
        lemma2_to64();
        assert(m * 1 == m) by (nonlinear_arith);
        0
    } else {
        let half = m * pow2((j - 1) as nat);
        lemma_pow2_unfold(j);
        assert(value == 2 * half) by (nonlinear_arith)
            requires
                value == m * pow2(j),
                half == m * pow2((j - 1) as nat),
                pow2(j) == 2 * pow2((j - 1) as nat),
        ;
        assert(value / 2 == half);
        let rest = lemma_reducer_exact(m, (j - 1) as nat);
        assert(rest * (2 * reducer(half)) == 2 * (rest * reducer(half))) by (nonlinear_arith);
        rest
    }
}

proof fn lemma_nearest_exact(quotient: int, den: int)
    requires
        den > 0,
        quotient >= 0,
    ensures
        nearest(quotient * den, den) == quotient,
{
    vstd::arithmetic::div_mod::lemma_div_by_multiple(quotient, den);
    vstd::arithmetic::div_mod::lemma_mod_multiples_basic(quotient, den);
}

/// Where the whole is a power of two nothing is lost in rounding, and the share is the least
/// number of places that makes up the part.
pub proof fn law_share_of_a_power_of_two_is_exact(part: int, n: nat, places: int)
    requires
        1 <= part <= pow2(n),
        1 <= places,
        pow2(n) * places < 0x40_0000,
    ensures
        single_share(part, pow2(n) as int, places) * pow2(n) >= part * places,
        (single_share(part, pow2(n) as int, places) - 1) * pow2(n) < part * places,
{
    let whole = pow2(n) as int;
    let scale = magnifier(part, whole);
    let k = lemma_magnifier_power(part, whole);
    let normal = NORMAL as int;
    lemma2_to64();
    lemma_pow2_pos(n);
    lemma_magnifier(part, whole);
    assert(scale >= normal) by (nonlinear_arith)
        requires
            part * scale >= normal * whole,
            1 <= part <= whole,
            normal == 0x80_0000,
    ;
    assert(whole < normal) by (nonlinear_arith)
        requires
            whole * places < 0x40_0000,
            places >= 1,
            whole >= 1,
            normal == 0x80_0000,
    ;
    if k <= n {
        if k < n {
            lemma_pow2_strictly_increases(k, n);
        }
    }
    let j = (k - n) as nat;
    let q = pow2(j) as int;
    lemma_pow2_adds(j, n);
    lemma_pow2_pos(j);
    assert(scale == q * whole);
    let m = part * places;
    assert(0 <= m < EXACT) by (nonlinear_arith)
        requires
            m == part * places,
            1 <= part <= whole,
            1 <= places,
            whole * places < 0x40_0000,
            EXACT == 0x100_0000,
    ;
    assert(part * scale == (part * q) * whole) by (nonlinear_arith)
        requires
            scale == q * whole,
    ;
    assert(part * q >= 0) by (nonlinear_arith)
        requires
            part >= 1,
            q >= 1,
    ;
    lemma_nearest_exact(part * q, whole);
    let significand = nearest(part * scale, whole);
    let value = significand * places;
    assert(value == m * q) by (nonlinear_arith)
        requires
            value == (part * q) * places,
            m == part * places,
    ;
    let rest = lemma_reducer_exact(m, j);
    let step = reducer(value);
    lemma_nearest_exact(rest, step);
    let share = ceiling(value, scale);
    assert(share == single_share(part, whole, places));
    assert(value <= share * scale < value + scale) by (nonlinear_arith)
        requires
            share == (value + scale - 1) / scale,
            scale >= 1,
    ;
    assert(share * whole >= m) by (nonlinear_arith)
        requires
            m * q <= share * (q * whole),
            q >= 1,
    ;
    assert((share - 1) * whole < m) by (nonlinear_arith)
        requires
            share * (q * whole) < m * q + q * whole,
            q >= 1,
    ;
}

}
