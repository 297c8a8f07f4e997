//! Transcendental functions on fixed-point values, computed by defined
//! series and argument reductions.  Each executable function is proved equal
//! to its specification, which states the approximation exactly (reduction,
//! truncated series, and the rounding of every step).

use vstd::prelude::*;
use vstd::arithmetic::div_mod::lemma_div_is_ordered;
use vstd::arithmetic::div_mod::lemma_div_is_ordered_by_denominator;
use vstd::arithmetic::div_mod::lemma_div_nonincreasing;
use vstd::arithmetic::div_mod::lemma_div_by_multiple;
use vstd::arithmetic::div_mod::lemma_fundamental_div_mod;
use crate::fx::{Fx, SCALE, ONE, RAW_MAX, in_range, iabs, tzdiv, mul_raw, div_raw};
use crate::fx;

verus! {

/// Fixed-point pi.
pub const PI_FX: i64 = 13493037704;

/// Fixed-point 2*pi.
pub const TWOPI_FX: i64 = 26986075409;

/// Fixed-point pi/2.
pub const HALFPI_FX: i64 = 6746518852;

/// Fixed-point ln 2.
pub const LN2_FX: i64 = 2977044471;

/// Arguments beyond this make `exp(-x)` indistinguishable from zero at the
/// resolution of the representation; the result saturates there.
pub const EXP_CAP: i64 = 274877906944;

/// `k`-fold squaring in fixed point.
pub open spec fn sq_iter(v: int, k: int) -> int
    decreases k,
{
    if k <= 0 {
        v
    } else {
        sq_iter((v * v) / (SCALE as int), k - 1)
    }
}

/// Specified value of `exp(-x)`: reduce by 2^20, three Taylor terms, then
/// square twenty times; zero beyond `EXP_CAP`.
pub open spec fn exp_neg_raw(x: int) -> int {
    if x > EXP_CAP as int {
        0
    } else {
        let y = x / 0x100000;
        let t = (y * y) / (SCALE as int);
        sq_iter((ONE as int) - y + t / 2, 20)
    }
}

proof fn lemma_sq_iter_one(k: int)
    ensures
        sq_iter(ONE as int, k) == ONE as int,
    decreases k,
{
    if k > 0 {
        assert(((ONE as int) * (ONE as int)) / (SCALE as int) == ONE as int);
        lemma_sq_iter_one(k - 1);
    }
}

/// `exp(-x)` for `x >= 0`, always within `[0, 1]`.
pub fn exp_neg(x: Fx) -> (r: Fx)
    requires
        x.wf(),
        x.raw >= 0,
    ensures
        r.raw as int == exp_neg_raw(x.raw as int),
        0 <= r.raw <= ONE,
        r.wf(),
        x.raw == 0 ==> r.raw == ONE,
{
    if x.raw > EXP_CAP {
        return Fx { raw: 0 };
    }
    let y: u64 = (x.raw as u64) / 0x100000u64;
    proof {
        lemma_div_is_ordered(x.raw as int, EXP_CAP as int, 0x100000);
        assert((y as int) * (y as int) <= (y as int) * (SCALE as int)) by (nonlinear_arith)
            requires
                0 <= y as int <= SCALE as int,
        ;
        lemma_div_is_ordered((y as int) * (y as int), (y as int) * (SCALE as int), SCALE as int);
        lemma_div_by_multiple(y as int, SCALE as int);
    }
    let t: u64 = (y * y) / (SCALE as u64);
    let t2: u64 = t / 2;
    proof {
        lemma_div_nonincreasing(t as int, 2);
    }
    let v0: u64 = ONE as u64 - y + t2;
    let ghost target = sq_iter(v0 as int, 20);
    let mut v: u64 = v0;
    let mut i: usize = 0;
    while i < 20
        invariant
            i <= 20,
            v <= ONE as u64,
            sq_iter(v as int, 20 - i) == target,
        decreases 20 - i,
    {
        proof {
            assert((v as int) * (v as int) <= (v as int) * (SCALE as int)) by (nonlinear_arith)
                requires
                    0 <= v as int <= SCALE as int,
            ;
            lemma_div_is_ordered(
                (v as int) * (v as int),
                (v as int) * (SCALE as int),
                SCALE as int,
            );
            lemma_div_by_multiple(v as int, SCALE as int);
            assert(sq_iter(v as int, 20 - i) == sq_iter(
                ((v as int) * (v as int)) / (SCALE as int),
                20 - i - 1,
            ));
        }
        let w = ((v as u128) * (v as u128)) / (SCALE as u128);
        v = w as u64;
        i += 1;
    }
    proof {
        if x.raw == 0 {
            lemma_sq_iter_one(20);
        }
    }
    Fx { raw: v as i64 }
}

/// Eight-term alternating cosine series, with the rounding of each step.
pub open spec fn cos_terms(x2: int, t: int, sum: int, j: int) -> int
    decreases 9 - j,
{
    if j >= 9 {
        sum
    } else {
        let tn = -tzdiv(tzdiv(t * x2, SCALE as int), (2 * j - 1) * (2 * j));
        cos_terms(x2, tn, sum + tn, j + 1)
    }
}

/// Specified cosine on the reduced quarter period.
pub open spec fn cos_core_raw(x: int) -> int {
    cos_terms((x * x) / (SCALE as int), ONE as int, ONE as int, 1)
}

/// Specified cosine on one full period, by reflection to the quarter period.
pub open spec fn cos_full_raw(x: int) -> int {
    let x1 = if x > PI_FX as int {
        TWOPI_FX as int - x
    } else {
        x
    };
    if x1 > HALFPI_FX as int {
        -cos_core_raw(PI_FX as int - x1)
    } else {
        cos_core_raw(x1)
    }
}

/// Specified sine on one full period, as a shifted cosine.
pub open spec fn sin_full_raw(x: int) -> int {
    if x >= HALFPI_FX as int {
        cos_full_raw(x - HALFPI_FX as int)
    } else {
        cos_full_raw(HALFPI_FX as int - x)
    }
}

fn cos_core(x: i64) -> (r: i64)
    requires
        0 <= x <= HALFPI_FX,
    ensures
        r as int == cos_core_raw(x as int),
        iabs(r as int) <= 20 * (ONE as int),
{
    proof {
        assert((x as int) * (x as int) <= (HALFPI_FX as int) * (HALFPI_FX as int))
            by (nonlinear_arith)
            requires
                0 <= x as int <= HALFPI_FX as int,
        ;
        lemma_div_is_ordered(
            (x as int) * (x as int),
            (HALFPI_FX as int) * (HALFPI_FX as int),
            SCALE as int,
        );
    }
    let x2u: u64 = (((x as u128) * (x as u128)) / (SCALE as u128)) as u64;
    let mut t: i64 = ONE;
    let mut sum: i64 = ONE;
    let mut j: i64 = 1;
    while j < 9
        invariant
            1 <= j <= 9,
            x2u as int == ((x as int) * (x as int)) / (SCALE as int),
            x2u <= 10737418240,
            j == 1 ==> t == ONE,
            iabs(t as int) <= 2 * (ONE as int),
            iabs(sum as int) <= (2 * j - 1) * (ONE as int),
            cos_terms(x2u as int, t as int, sum as int, j as int) == cos_core_raw(x as int),
        decreases 9 - j,
    {
        proof {
            assert(2 <= (2 * (j as int) - 1) * (2 * (j as int)) <= 306) by (nonlinear_arith)
                requires
                    1 <= j as int <= 8,
            ;
            if j >= 2 {
                assert((2 * (j as int) - 1) * (2 * (j as int)) >= 12) by (nonlinear_arith)
                    requires
                        2 <= j as int,
                ;
            }
        }
        let d: i64 = (2 * j - 1) * (2 * j);
        let inner128 = fx::mul_core(t, x2u as i64);
        proof {
            assert(iabs(t as int) * iabs(x2u as int) <= 2 * (ONE as int) * 10737418240int)
                by (nonlinear_arith)
                requires
                    iabs(t as int) <= 2 * (ONE as int),
                    0 <= iabs(x2u as int) <= 10737418240int,
            ;
            lemma_div_is_ordered(
                iabs(t as int) * iabs(x2u as int),
                2 * (ONE as int) * 10737418240int,
                SCALE as int,
            );
        }
        let inner: i64 = inner128 as i64;
        let m: u64 = fx::mag(inner) / (d as u64);
        proof {
            lemma_div_nonincreasing(iabs(inner as int), d as int);
            if j == 1 {
                // first step: |inner| is at most x2, which is divided by 2
                assert(iabs(t as int) * iabs(x2u as int) == iabs(x2u as int) * (SCALE as int))
                    by (nonlinear_arith)
                    requires
                        t as int == ONE as int,
                        ONE as int == SCALE as int,
                ;
                lemma_div_by_multiple(iabs(x2u as int), SCALE as int);
                lemma_div_is_ordered(iabs(inner as int), 10737418240int, 2);
            } else {
                // later steps: the divisor is at least 12
                lemma_div_is_ordered_by_denominator(iabs(inner as int), 12, d as int);
                lemma_div_is_ordered(iabs(inner as int), 21474836480int, 12);
            }
        }
        let tn: i64 = if inner < 0 {
            m as i64
        } else {
            -(m as i64)
        };
        sum = sum + tn;
        t = tn;
        j = j + 1;
    }
    sum
}

/// Cosine on `[0, 2*pi]`.
pub fn cos_full(x: Fx) -> (r: Fx)
    requires
        x.wf(),
        0 <= x.raw <= TWOPI_FX,
    ensures
        r.raw as int == cos_full_raw(x.raw as int),
        iabs(r.raw as int) <= 20 * (ONE as int),
        r.wf(),
{
    let x1: i64 = if x.raw > PI_FX {
        TWOPI_FX - x.raw
    } else {
        x.raw
    };
    if x1 > HALFPI_FX {
        let c = cos_core(PI_FX - x1);
        Fx { raw: -c }
    } else {
        Fx { raw: cos_core(x1) }
    }
}

/// Sine on `[0, 2*pi]`.
pub fn sin_full(x: Fx) -> (r: Fx)
    requires
        x.wf(),
        0 <= x.raw <= TWOPI_FX,
    ensures
        r.raw as int == sin_full_raw(x.raw as int),
        iabs(r.raw as int) <= 20 * (ONE as int),
        r.wf(),
{
    if x.raw >= HALFPI_FX {
        cos_full(Fx { raw: x.raw - HALFPI_FX })
    } else {
        cos_full(Fx { raw: HALFPI_FX - x.raw })
    }
}

/// Powers of two (for the normalization count of the logarithm).
pub open spec fn p2(e: int) -> int
    decreases e,
{
    if e <= 0 {
        1
    } else {
        2 * p2(e - 1)
    }
}

/// Mantissa of the logarithm's normalization `b = m * 2^e`, `m` in `[1, 2]`.
pub open spec fn norm_v(v: int) -> int
    decreases v,
{
    if v <= 2 * (ONE as int) {
        v
    } else {
        norm_v(v / 2)
    }
}

/// Exponent of the logarithm's normalization.
pub open spec fn norm_e(v: int) -> int
    decreases v,
{
    if v <= 2 * (ONE as int) {
        0
    } else {
        1 + norm_e(v / 2)
    }
}

/// Nine further terms of the series `ln m = 2 (z + z^3/3 + z^5/5 + ...)`.
pub open spec fn ln_terms(z2: int, p: int, sum: int, j: int) -> int
    decreases 10 - j,
{
    if j >= 10 {
        sum
    } else {
        let pn = (p * z2) / (SCALE as int);
        ln_terms(z2, pn, sum + pn / (2 * j + 1), j + 1)
    }
}

/// Specified natural logarithm for arguments at least one.
pub open spec fn ln_raw(b: int) -> int {
    let v = norm_v(b);
    let e = norm_e(b);
    let z = ((v - ONE as int) * (SCALE as int)) / (v + ONE as int);
    let z2 = (z * z) / (SCALE as int);
    e * (LN2_FX as int) + 2 * ln_terms(z2, z, z, 1)
}

/// Natural logarithm for `b >= 1`.
pub fn ln_fx(b: Fx) -> (r: Fx)
    requires
        b.wf(),
        b.raw >= ONE,
    ensures
        r.raw as int == ln_raw(b.raw as int),
        0 <= r.raw <= 140000000000i64,
        r.wf(),
        b.raw == ONE ==> r.raw == 0,
{
    let mut v: u64 = b.raw as u64;
    let mut e: u32 = 0;
    while v > 2 * (ONE as u64)
        invariant
            ONE as u64 <= v,
            v <= RAW_MAX as u64,
            e <= 31,
            p2(e as int) * (v as int) <= RAW_MAX as int,
            norm_v(b.raw as int) == norm_v(v as int),
            norm_e(b.raw as int) == e + norm_e(v as int),
        decreases v,
    {
        proof {
            lemma_fundamental_div_mod(v as int, 2);
            lemma_p2_pos(e as int);
            assert(p2(e as int + 1) == 2 * p2(e as int));
            assert(2 * p2(e as int) * ((v as int) / 2) <= p2(e as int) * (v as int))
                by (nonlinear_arith)
                requires
                    p2(e as int) >= 1,
                    2 * ((v as int) / 2) <= v as int,
            ;
            assert(norm_v(v as int) == norm_v((v as int) / 2));
            assert(norm_e(v as int) == 1 + norm_e((v as int) / 2));
            if e >= 31 {
                reveal_with_fuel(p2, 33);
                assert(p2(e as int) >= p2(31)) by {
                    lemma_p2_mono(31, e as int);
                }
                assert(p2(31) * (v as int) > RAW_MAX as int) by (nonlinear_arith)
                    requires
                        p2(31) == 0x80000000int,
                        v as int > 2 * (ONE as int),
                ;
            }
        }
        v = v / 2;
        e = e + 1;
    }
    let vi: i64 = v as i64;
    let num: i64 = vi - ONE;
    let den: i64 = vi + ONE;
    let z128 = fx::div_core(num, den);
    proof {
        fx::lemma_abs_mul(num as int, SCALE as int);
        assert(iabs((num as int) * (SCALE as int)) <= (ONE as int) * (SCALE as int))
            by (nonlinear_arith)
            requires
                0 <= num as int <= ONE as int,
        ;
        lemma_div_is_ordered_by_denominator(
            (num as int) * (SCALE as int),
            2 * (ONE as int),
            den as int,
        );
        lemma_div_is_ordered(
            (num as int) * (SCALE as int),
            (ONE as int) * (SCALE as int),
            2 * (ONE as int),
        );
    }
    proof {
        fx::lemma_sign_mul(num as int, SCALE as int);
    }
    let z: u64 = z128 as u64;
    proof {
        assert((z as int) * (z as int) <= 0x80000000int * 0x80000000int) by (nonlinear_arith)
            requires
                0 <= z as int <= 0x80000000int,
        ;
        lemma_div_is_ordered((z as int) * (z as int), 0x80000000int * 0x80000000int, SCALE as int);
    }
    let z2: u64 = (z * z) / (SCALE as u64);
    let mut p: u64 = z;
    let mut sum: u64 = z;
    let mut j: u64 = 1;
    while j < 10
        invariant
            1 <= j <= 10,
            z <= 0x80000000u64,
            z2 <= 0x40000000u64,
            p <= z,
            sum <= j * z,
            ln_terms(z2 as int, p as int, sum as int, j as int) == ln_terms(
                z2 as int,
                z as int,
                z as int,
                1,
            ),
        decreases 10 - j,
    {
        proof {
            assert((p as int) * (z2 as int) <= (p as int) * (SCALE as int)) by (nonlinear_arith)
                requires
                    0 <= p as int,
                    0 <= z2 as int <= SCALE as int,
            ;
            lemma_div_is_ordered((p as int) * (z2 as int), (p as int) * (SCALE as int), SCALE as int);
            lemma_div_by_multiple(p as int, SCALE as int);
            assert((p as int) * (z2 as int) <= 0x80000000int * 0x40000000int) by (nonlinear_arith)
                requires
                    0 <= p as int <= 0x80000000int,
                    0 <= z2 as int <= 0x40000000int,
            ;
        }
        let pn: u64 = (p * z2) / (SCALE as u64);
        let term: u64 = pn / (2 * j + 1);
        proof {
            lemma_div_nonincreasing(pn as int, 2 * (j as int) + 1);
            assert((sum as int) + (term as int) <= ((j as int) + 1) * (z as int))
                by (nonlinear_arith)
                requires
                    sum as int <= (j as int) * (z as int),
                    term as int <= z as int,
                    0 <= z as int,
            ;
            assert((j as int) * (z as int) <= 10 * 0x80000000int) by (nonlinear_arith)
                requires
                    0 <= j as int <= 10,
                    0 <= z as int <= 0x80000000int,
            ;
        }
        sum = sum + term;
        p = pn;
        j = j + 1;
    }
    let r: i64 = (e as i64) * LN2_FX + 2 * (sum as i64);
    proof {
        assert((e as int) * (LN2_FX as int) <= 31 * (LN2_FX as int)) by (nonlinear_arith)
            requires
                0 <= e as int <= 31,
        ;
        assert((sum as int) <= 10 * 0x80000000int) by (nonlinear_arith)
            requires
                sum as int <= (j as int) * (z as int),
                j as int <= 10,
                z as int <= 0x80000000int,
                0 <= sum as int,
        ;
        assert((e as int) * (LN2_FX as int) >= 0) by (nonlinear_arith)
            requires
                e as int >= 0,
        ;
        if b.raw == ONE {
            reveal_with_fuel(ln_terms, 11);
        }
    }
    Fx { raw: r }
}

/// `exp(-0)` is exactly one.
pub proof fn lemma_exp_neg_raw_zero()
    ensures
        exp_neg_raw(0) == ONE as int,
{
    lemma_sq_iter_one(20);
    assert(0int / 0x100000int == 0int);
    assert((0int * 0int) / (SCALE as int) == 0int);
    assert(0int / 2int == 0int);
    assert((ONE as int) - 0int + 0int == ONE as int);
    assert(sq_iter(ONE as int, 20) == ONE as int);
    assert(exp_neg_raw(0) == sq_iter(ONE as int, 20));
}

/// `ln 1` is exactly zero.
pub proof fn lemma_ln_raw_one()
    ensures
        ln_raw(ONE as int) == 0,
{
    reveal_with_fuel(ln_terms, 11);
    assert(norm_v(ONE as int) == ONE as int);
    assert(norm_e(ONE as int) == 0);
    assert(((ONE as int) - (ONE as int)) * (SCALE as int) == 0int);
    assert(0int / ((ONE as int) + (ONE as int)) == 0int);
    assert((0int * 0int) / (SCALE as int) == 0int);
    assert(ln_terms(0, 0, 0, 1) == 0);
    assert(ln_raw(ONE as int) == 0 * (LN2_FX as int) + 2 * ln_terms(0, 0, 0, 1));
}

proof fn lemma_norm_v_at_least_one(v: int)
    requires
        v >= ONE as int,
    ensures
        ONE as int <= norm_v(v) <= 2 * (ONE as int),
    decreases v,
{
    if v > 2 * (ONE as int) {
        lemma_norm_v_at_least_one(v / 2);
    }
}

proof fn lemma_norm_e_nonneg(v: int)
    requires
        v >= ONE as int,
    ensures
        norm_e(v) >= 0,
    decreases v,
{
    if v > 2 * (ONE as int) {
        lemma_norm_e_nonneg(v / 2);
    }
}

proof fn lemma_ln_terms_nonneg(z2: int, p: int, sum: int, j: int)
    requires
        z2 >= 0,
        p >= 0,
        sum >= 0,
        1 <= j,
    ensures
        ln_terms(z2, p, sum, j) >= sum,
    decreases 10 - j,
{
    if j < 10 {
        crate::fx::lemma_sign_mul(p, z2);
        vstd::arithmetic::div_mod::lemma_div_pos_is_pos(p * z2, SCALE as int);
        vstd::arithmetic::div_mod::lemma_div_pos_is_pos((p * z2) / (SCALE as int), 2 * j + 1);
        lemma_ln_terms_nonneg(
            z2,
            (p * z2) / (SCALE as int),
            sum + ((p * z2) / (SCALE as int)) / (2 * j + 1),
            j + 1,
        );
    }
}

/// The logarithm of an argument at least one is nonnegative.
pub proof fn lemma_ln_raw_nonneg(b: int)
    requires
        b >= ONE as int,
    ensures
        ln_raw(b) >= 0,
{
    lemma_norm_v_at_least_one(b);
    lemma_norm_e_nonneg(b);
    let v = norm_v(b);
    let z = ((v - ONE as int) * (SCALE as int)) / (v + ONE as int);
    crate::fx::lemma_sign_mul(v - ONE as int, SCALE as int);
    vstd::arithmetic::div_mod::lemma_div_pos_is_pos((v - ONE as int) * (SCALE as int), v + ONE as int);
    crate::fx::lemma_sign_mul(z, z);
    vstd::arithmetic::div_mod::lemma_div_pos_is_pos(z * z, SCALE as int);
    lemma_ln_terms_nonneg((z * z) / (SCALE as int), z, z, 1);
    assert(norm_e(b) * (LN2_FX as int) >= 0) by (nonlinear_arith)
        requires
            norm_e(b) >= 0,
    ;
}

proof fn lemma_p2_pos(e: int)
    ensures
        p2(e) >= 1,
    decreases e,
{
    if e > 0 {
        lemma_p2_pos(e - 1);
    }
}

proof fn lemma_p2_mono(a: int, b: int)
    requires
        0 <= a <= b,
    ensures
        p2(a) <= p2(b),
    decreases b - a,
{
    if a < b {
        lemma_p2_mono(a, b - 1);
        lemma_p2_pos(b - 1);
    }
}

} // verus!
