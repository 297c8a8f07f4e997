//! Fixed-point real arithmetic: a value `v` is represented by the integer
//! `raw` with `v = raw / 2^32`.  Operations truncate toward zero, exactly as
//! specified by `mul_raw` / `div_raw`, and are range-checked against
//! `RAW_MAX` so that no intermediate ever overflows the machine integers.

use vstd::prelude::*;
use vstd::arithmetic::div_mod::lemma_div_is_ordered;
use vstd::arithmetic::div_mod::lemma_div_nonincreasing;

verus! {

/// Scale of the representation: `raw = value * 2^32`.
pub const SCALE: i64 = 4294967296;

/// Fixed-point one.
pub const ONE: i64 = 4294967296;

/// Largest admitted magnitude of a raw value (2^62), leaving headroom so
/// that products of two admitted values fit in 128 bits.
pub const RAW_MAX: i64 = 4611686018427387904;

pub open spec fn in_range(x: int) -> bool {
    -(RAW_MAX as int) <= x <= RAW_MAX as int
}

pub open spec fn iabs(x: int) -> int {
    if x < 0 {
        -x
    } else {
        x
    }
}

/// Division truncating toward zero (the rounding of the executable code).
pub open spec fn tzdiv(x: int, d: int) -> int
    recommends
        d != 0,
{
    if (x < 0) != (d < 0) {
        -(iabs(x) / iabs(d))
    } else {
        iabs(x) / iabs(d)
    }
}

/// Raw result of a fixed-point multiplication.
pub open spec fn mul_raw(a: int, b: int) -> int {
    tzdiv(a * b, SCALE as int)
}

/// Raw result of a fixed-point division.
pub open spec fn div_raw(a: int, b: int) -> int
    recommends
        b != 0,
{
    tzdiv(a * (SCALE as int), b)
}

/// Range check: the checked operations return `None` exactly when the
/// mathematical result leaves the representable range.
pub open spec fn chk(x: int) -> Option<int> {
    if in_range(x) {
        Some(x)
    } else {
        None
    }
}

/// Floor square root of a nonnegative integer.
pub open spec fn sqrt_nat(x: int) -> int
    decreases x,
{
    if x <= 0 {
        0
    } else if (sqrt_nat(x - 1) + 1) * (sqrt_nat(x - 1) + 1) <= x {
        sqrt_nat(x - 1) + 1
    } else {
        sqrt_nat(x - 1)
    }
}

/// Raw result of a fixed-point square root (`None` on a negative argument).
pub open spec fn sqrt_raw(a: int) -> Option<int> {
    if a < 0 {
        None
    } else {
        Some(sqrt_nat(a * (SCALE as int)))
    }
}

/// Relates an executable checked result to the specified raw result.
pub open spec fn opt_is(r: Option<Fx>, s: Option<int>) -> bool {
    match (r, s) {
        (Some(v), Some(x)) => v.raw as int == x && in_range(x),
        (None, None) => true,
        _ => false,
    }
}

/// A fixed-point number.
#[derive(Clone, Copy, PartialEq, Eq, Structural, Debug)]
pub struct Fx {
    pub raw: i64,
}

pub(crate) proof fn lemma_abs_mul(a: int, b: int)
    ensures
        iabs(a * b) == iabs(a) * iabs(b),
{
    assert(iabs(a * b) == iabs(a) * iabs(b)) by (nonlinear_arith);
}

pub(crate) proof fn lemma_sign_mul(a: int, b: int)
    ensures
        (a * b < 0) <==> ((a < 0 && b > 0) || (a > 0 && b < 0)),
        (a * b == 0) <==> (a == 0 || b == 0),
{
    assert((a * b < 0) <==> ((a < 0 && b > 0) || (a > 0 && b < 0))) by (nonlinear_arith);
    assert((a * b == 0) <==> (a == 0 || b == 0)) by (nonlinear_arith);
}

/// Bound on a fixed-point product from bounds on its factors.
pub proof fn lemma_mul_raw_bound(a: int, b: int, bound_a: int, bound_b: int)
    requires
        iabs(a) <= bound_a,
        iabs(b) <= bound_b,
    ensures
        iabs(mul_raw(a, b)) <= (bound_a * bound_b) / (SCALE as int),
{
    lemma_abs_mul(a, b);
    assert(iabs(a) * iabs(b) <= bound_a * bound_b) by (nonlinear_arith)
        requires
            0 <= iabs(a) <= bound_a,
            0 <= iabs(b) <= bound_b,
    ;
    lemma_div_is_ordered(iabs(a * b), bound_a * bound_b, SCALE as int);
}

pub proof fn lemma_sqrt_nat_bounds(x: int)
    requires
        x >= 0,
    ensures
        0 <= sqrt_nat(x),
        sqrt_nat(x) * sqrt_nat(x) <= x,
        x < (sqrt_nat(x) + 1) * (sqrt_nat(x) + 1),
    decreases x,
{
    if x == 0 {
    } else {
        lemma_sqrt_nat_bounds(x - 1);
        let p = sqrt_nat(x - 1);
        if (p + 1) * (p + 1) <= x {
            assert(x < (p + 2) * (p + 2)) by (nonlinear_arith)
                requires
                    p >= 0,
                    x - 1 < (p + 1) * (p + 1),
            ;
        }
    }
}

pub proof fn lemma_sqrt_nat_unique(x: int, r: int)
    requires
        x >= 0,
        r >= 0,
        r * r <= x,
        x < (r + 1) * (r + 1),
    ensures
        r == sqrt_nat(x),
{
    lemma_sqrt_nat_bounds(x);
    let s = sqrt_nat(x);
    if r < s {
        assert((r + 1) * (r + 1) <= s * s) by (nonlinear_arith)
            requires
                0 <= r,
                r + 1 <= s,
        ;
    }
    if s < r {
        assert((s + 1) * (s + 1) <= r * r) by (nonlinear_arith)
            requires
                0 <= s,
                s + 1 <= r,
        ;
    }
}

/// Magnitude of an admitted raw value.
pub(crate) fn mag(x: i64) -> (m: u64)
    requires
        x != i64::MIN,
    ensures
        m as int == iabs(x as int),
{
    if x < 0 {
        (-x) as u64
    } else {
        x as u64
    }
}

/// Core of multiplication: exact `mul_raw` in 128 bits.
pub(crate) fn mul_core(a: i64, b: i64) -> (r: i128)
    requires
        in_range(a as int),
        in_range(b as int),
    ensures
        r as int == mul_raw(a as int, b as int),
        iabs(r as int) <= iabs(a as int) * iabs(b as int) / (SCALE as int),
{
    let am = mag(a) as u128;
    let bm = mag(b) as u128;
    proof {
        lemma_abs_mul(a as int, b as int);
        assert(am * bm <= (RAW_MAX as u128) * (RAW_MAX as u128)) by (nonlinear_arith)
            requires
                am <= RAW_MAX as u128,
                bm <= RAW_MAX as u128,
        ;
    }
    let q = (am * bm) / (SCALE as u128);
    proof {
        lemma_div_is_ordered((am * bm) as int, (RAW_MAX as int) * (RAW_MAX as int), SCALE as int);
    }
    proof {
        lemma_sign_mul(a as int, b as int);
    }
    let neg = (a < 0) != (b < 0);
    if neg {
        -(q as i128)
    } else {
        q as i128
    }
}

/// Core of division: exact `div_raw` in 128 bits.
pub(crate) fn div_core(a: i64, b: i64) -> (r: i128)
    requires
        in_range(a as int),
        in_range(b as int),
        b != 0,
    ensures
        r as int == div_raw(a as int, b as int),
{
    let am = mag(a) as u128;
    let bm = mag(b) as u128;
    proof {
        lemma_abs_mul(a as int, SCALE as int);
        assert(am * (SCALE as u128) <= (RAW_MAX as u128) * (SCALE as u128)) by (nonlinear_arith)
            requires
                am <= RAW_MAX as u128,
        ;
        assert(iabs((a as int) * (SCALE as int)) == iabs(a as int) * (SCALE as int));
    }
    let q = (am * (SCALE as u128)) / bm;
    proof {
        lemma_div_nonincreasing((am * (SCALE as u128)) as int, bm as int);
        lemma_sign_mul(a as int, SCALE as int);
    }
    let neg = (a < 0) != (b < 0);
    if neg {
        -(q as i128)
    } else {
        q as i128
    }
}

fn clamp_i128(x: i128) -> (r: Option<Fx>)
    ensures
        opt_is(r, chk(x as int)),
{
    if -(RAW_MAX as i128) <= x && x <= RAW_MAX as i128 {
        Some(Fx { raw: x as i64 })
    } else {
        None
    }
}

impl Fx {
    /// The value is within the admitted range.
    pub open spec fn wf(self) -> bool {
        in_range(self.raw as int)
    }

    pub fn from_raw(raw: i64) -> (r: Fx)
        requires
            in_range(raw as int),
        ensures
            r.raw == raw,
            r.wf(),
    {
        Fx { raw }
    }

    pub fn zero() -> (r: Fx)
        ensures
            r.raw == 0,
            r.wf(),
    {
        Fx { raw: 0 }
    }

    pub fn one() -> (r: Fx)
        ensures
            r.raw == ONE,
            r.wf(),
    {
        Fx { raw: ONE }
    }

    /// Whole number as a fixed-point value.
    pub fn from_int(v: i32) -> (r: Fx)
        requires
            -1073741824 <= v <= 1073741824,
        ensures
            r.raw as int == (v as int) * (SCALE as int),
            r.wf(),
    {
        proof {
            assert((v as int) * (SCALE as int) <= 1073741824 * (SCALE as int)) by (nonlinear_arith)
                requires
                    v as int <= 1073741824,
            ;
            assert((v as int) * (SCALE as int) >= -1073741824 * (SCALE as int))
                by (nonlinear_arith)
                requires
                    v as int >= -1073741824,
            ;
        }
        Fx { raw: (v as i64) * SCALE }
    }

    pub fn checked_add(self, o: Fx) -> (r: Option<Fx>)
        requires
            self.wf(),
            o.wf(),
        ensures
            opt_is(r, chk(self.raw + o.raw)),
            r matches Some(v) ==> v.wf(),
    {
        clamp_i128(self.raw as i128 + o.raw as i128)
    }

    pub fn checked_sub(self, o: Fx) -> (r: Option<Fx>)
        requires
            self.wf(),
            o.wf(),
        ensures
            opt_is(r, chk(self.raw - o.raw)),
            r matches Some(v) ==> v.wf(),
    {
        clamp_i128(self.raw as i128 - o.raw as i128)
    }

    pub fn checked_mul(self, o: Fx) -> (r: Option<Fx>)
        requires
            self.wf(),
            o.wf(),
        ensures
            opt_is(r, chk(mul_raw(self.raw as int, o.raw as int))),
            r matches Some(v) ==> v.wf(),
    {
        clamp_i128(mul_core(self.raw, o.raw))
    }

    pub fn checked_div(self, o: Fx) -> (r: Option<Fx>)
        requires
            self.wf(),
            o.wf(),
        ensures
            o.raw == 0 ==> r is None,
            o.raw != 0 ==> opt_is(r, chk(div_raw(self.raw as int, o.raw as int))),
            r matches Some(v) ==> v.wf(),
    {
        if o.raw == 0 {
            None
        } else {
            clamp_i128(div_core(self.raw, o.raw))
        }
    }

    /// Fixed-point floor square root; `None` on negative input.
    pub fn checked_sqrt(self) -> (r: Option<Fx>)
        requires
            self.wf(),
        ensures
            opt_is(r, sqrt_raw(self.raw as int)),
            r matches Some(v) ==> v.wf() && v.raw >= 0,
    {
        if self.raw < 0 {
            None
        } else {
            let x = (self.raw as u128) * (SCALE as u128);
            let s = sqrt_floor_u(x);
            proof {
                lemma_sqrt_nat_unique(x as int, s as int);
                lemma_sqrt_nat_bounds(x as int);
                assert(s as int <= RAW_MAX as int) by (nonlinear_arith)
                    requires
                        (s as int) * (s as int) <= x as int,
                        x as int <= (RAW_MAX as int) * (SCALE as int),
                        s as int >= 0,
                ;
            }
            Some(Fx { raw: s as i64 })
        }
    }

    /// Multiplication whose result is known (by the caller's proof) to be in
    /// range; avoids the `Option` where bounds have been established.
    pub fn mul_in_range(self, o: Fx) -> (r: Fx)
        requires
            self.wf(),
            o.wf(),
            in_range(mul_raw(self.raw as int, o.raw as int)),
        ensures
            r.raw as int == mul_raw(self.raw as int, o.raw as int),
            r.wf(),
    {
        let q = mul_core(self.raw, o.raw);
        Fx { raw: q as i64 }
    }

    /// Division (nonzero divisor) whose result is known to be in range.
    pub fn div_in_range(self, o: Fx) -> (r: Fx)
        requires
            self.wf(),
            o.wf(),
            o.raw != 0,
            in_range(div_raw(self.raw as int, o.raw as int)),
        ensures
            r.raw as int == div_raw(self.raw as int, o.raw as int),
            r.wf(),
    {
        let q = div_core(self.raw, o.raw);
        Fx { raw: q as i64 }
    }
}

/// Raw value carried by a checked result.
pub open spec fn lift(a: Option<Fx>) -> Option<int> {
    match a {
        Some(v) => Some(v.raw as int),
        None => None,
    }
}

/// A checked result is well-formed when its value, if any, is in range.
pub open spec fn owf(a: Option<Fx>) -> bool {
    match a {
        Some(v) => v.wf(),
        None => true,
    }
}

/// Checked addition over optional raw values.
pub open spec fn oadd(a: Option<int>, b: Option<int>) -> Option<int> {
    match (a, b) {
        (Some(x), Some(y)) => chk(x + y),
        _ => None,
    }
}

/// Checked subtraction over optional raw values.
pub open spec fn osub(a: Option<int>, b: Option<int>) -> Option<int> {
    match (a, b) {
        (Some(x), Some(y)) => chk(x - y),
        _ => None,
    }
}

/// Checked multiplication over optional raw values.
pub open spec fn omul(a: Option<int>, b: Option<int>) -> Option<int> {
    match (a, b) {
        (Some(x), Some(y)) => chk(mul_raw(x, y)),
        _ => None,
    }
}

/// Checked division over optional raw values; `None` on a zero divisor.
pub open spec fn odiv(a: Option<int>, b: Option<int>) -> Option<int> {
    match (a, b) {
        (Some(x), Some(y)) => if y == 0 {
            None
        } else {
            chk(div_raw(x, y))
        },
        _ => None,
    }
}

/// Halving (toward zero) of an optional raw value.
pub open spec fn ohalf(a: Option<int>) -> Option<int> {
    match a {
        Some(x) => Some(tzdiv(x, 2)),
        None => None,
    }
}

/// Checked square root of an optional raw value.
pub open spec fn osqrt(a: Option<int>) -> Option<int> {
    match a {
        Some(x) => sqrt_raw(x),
        None => None,
    }
}

pub fn ck_add(a: Option<Fx>, b: Option<Fx>) -> (r: Option<Fx>)
    requires
        owf(a),
        owf(b),
    ensures
        lift(r) == oadd(lift(a), lift(b)),
        owf(r),
{
    match (a, b) {
        (Some(x), Some(y)) => x.checked_add(y),
        _ => None,
    }
}

pub fn ck_sub(a: Option<Fx>, b: Option<Fx>) -> (r: Option<Fx>)
    requires
        owf(a),
        owf(b),
    ensures
        lift(r) == osub(lift(a), lift(b)),
        owf(r),
{
    match (a, b) {
        (Some(x), Some(y)) => x.checked_sub(y),
        _ => None,
    }
}

pub fn ck_mul(a: Option<Fx>, b: Option<Fx>) -> (r: Option<Fx>)
    requires
        owf(a),
        owf(b),
    ensures
        lift(r) == omul(lift(a), lift(b)),
        owf(r),
{
    match (a, b) {
        (Some(x), Some(y)) => x.checked_mul(y),
        _ => None,
    }
}

pub fn ck_div(a: Option<Fx>, b: Option<Fx>) -> (r: Option<Fx>)
    requires
        owf(a),
        owf(b),
    ensures
        lift(r) == odiv(lift(a), lift(b)),
        owf(r),
{
    match (a, b) {
        (Some(x), Some(y)) => x.checked_div(y),
        _ => None,
    }
}

pub fn ck_half(a: Option<Fx>) -> (r: Option<Fx>)
    requires
        owf(a),
    ensures
        lift(r) == ohalf(lift(a)),
        owf(r),
{
    match a {
        Some(x) => {
            let m = mag(x.raw) / 2;
            proof {
                lemma_div_nonincreasing(iabs(x.raw as int), 2);
            }
            if x.raw < 0 {
                Some(Fx { raw: -(m as i64) })
            } else {
                Some(Fx { raw: m as i64 })
            }
        },
        None => None,
    }
}

pub fn ck_sqrt(a: Option<Fx>) -> (r: Option<Fx>)
    requires
        owf(a),
    ensures
        lift(r) == osqrt(lift(a)),
        owf(r),
        r matches Some(v) ==> v.raw >= 0,
{
    match a {
        Some(x) => x.checked_sqrt(),
        None => None,
    }
}

/// Floor square root of an unsigned 128-bit integer below 2^96.
fn sqrt_floor_u(x: u128) -> (r: u64)
    requires
        x < 0x1000000000000000000000000u128,
    ensures
        (r as int) * (r as int) <= x as int,
        (x as int) < ((r as int) + 1) * ((r as int) + 1),
{
    let mut lo: u64 = 0;
    let mut hi: u64 = 0x1000000000000;
    proof {
        assert((hi as int) * (hi as int) == 0x1000000000000000000000000int);
    }
    while lo + 1 < hi
        invariant
            lo < hi,
            hi <= 0x1000000000000,
            (lo as int) * (lo as int) <= x as int,
            (x as int) < (hi as int) * (hi as int),
        decreases hi - lo,
    {
        let mid = lo + (hi - lo) / 2;
        proof {
            assert((mid as int) * (mid as int) <= 0x1000000000000000000000000int)
                by (nonlinear_arith)
                requires
                    0 <= mid as int <= 0x1000000000000int,
            ;
        }
        if (mid as u128) * (mid as u128) <= x {
            lo = mid;
        } else {
            hi = mid;
        }
    }
    lo
}

} // verus!
