//! A 3D point held redundantly in Cartesian and spherical form.  The two
//! representations never drift apart: every point is built by one of the two
//! constructors, which compute all six fields together, and there is no
//! field-wise mutation.

use vstd::prelude::*;
use vstd::arithmetic::div_mod::lemma_div_is_ordered;
use crate::fx::{Fx, SCALE, ONE, RAW_MAX, in_range, iabs, tzdiv, mul_raw, div_raw, sqrt_nat, chk};
use crate::fx;
use crate::series::{PI_FX, TWOPI_FX, HALFPI_FX, sin_full_raw, cos_full_raw, sin_full, cos_full};

verus! {

/// Radii beyond this bound are not representable by the constructors
/// (roughly 6.5e4 in physical units, far above any cluster size).
pub const R_CAP: i64 = 281474976710656;

/// A point of the cluster, with consistent Cartesian and spherical fields.
#[derive(Clone, Copy, PartialEq, Eq, Structural, Debug)]
pub struct SphericalPoint {
    pub x: Fx,
    pub y: Fx,
    pub z: Fx,
    pub r: Fx,
    pub phi: Fx,
    pub theta: Fx,
}

/// A negative azimuth is shifted by one period before the trigonometry
/// (sine and cosine are periodic, so the point is the same).
pub open spec fn adj_phi(phi: int) -> int {
    if phi < 0 {
        phi + TWOPI_FX as int
    } else {
        phi
    }
}

/// Specified Cartesian coordinates of a spherical triple.
pub open spec fn sph_x_raw(r: int, phi: int, theta: int) -> int {
    mul_raw(mul_raw(r, sin_full_raw(theta)), cos_full_raw(adj_phi(phi)))
}

pub open spec fn sph_y_raw(r: int, phi: int, theta: int) -> int {
    mul_raw(mul_raw(r, sin_full_raw(theta)), sin_full_raw(adj_phi(phi)))
}

pub open spec fn sph_z_raw(r: int, theta: int) -> int {
    mul_raw(r, cos_full_raw(theta))
}

/// The point a spherical triple constructs, with all six fields.
pub open spec fn mk_sph(r: int, phi: int, theta: int) -> SphericalPoint {
    SphericalPoint {
        x: Fx { raw: sph_x_raw(r, phi, theta) as i64 },
        y: Fx { raw: sph_y_raw(r, phi, theta) as i64 },
        z: Fx { raw: sph_z_raw(r, theta) as i64 },
        r: Fx { raw: r as i64 },
        phi: Fx { raw: phi as i64 },
        theta: Fx { raw: theta as i64 },
    }
}

/// One wrap-around correction for the azimuthal angle (period 2*pi).
pub open spec fn norm_phi_raw(phi: int) -> int {
    if phi < 0 {
        phi + TWOPI_FX as int
    } else if phi > TWOPI_FX as int {
        phi - TWOPI_FX as int
    } else {
        phi
    }
}

/// One wrap-around correction for the polar angle (period pi).
pub open spec fn norm_theta_raw(theta: int) -> int {
    if theta < 0 {
        theta + PI_FX as int
    } else if theta > PI_FX as int {
        theta - PI_FX as int
    } else {
        theta
    }
}

impl SphericalPoint {
    /// Fields are in range, the radius is nonnegative, and the angles lie
    /// within one wrap-around correction of their canonical ranges.
    pub open spec fn wf(self) -> bool {
        &&& self.x.wf()
        &&& self.y.wf()
        &&& self.z.wf()
        &&& self.r.wf()
        &&& self.phi.wf()
        &&& self.theta.wf()
        &&& 0 <= self.r.raw <= R_CAP
        &&& -(PI_FX as int) <= self.phi.raw <= TWOPI_FX as int
        &&& 0 <= self.theta.raw <= PI_FX as int
    }

    /// The point at the origin.
    pub fn origin() -> (p: SphericalPoint)
        ensures
            p.wf(),
            p.x.raw == 0 && p.y.raw == 0 && p.z.raw == 0,
            p.r.raw == 0 && p.phi.raw == 0 && p.theta.raw == 0,
    {
        SphericalPoint {
            x: Fx { raw: 0 },
            y: Fx { raw: 0 },
            z: Fx { raw: 0 },
            r: Fx { raw: 0 },
            phi: Fx { raw: 0 },
            theta: Fx { raw: 0 },
        }
    }

    /// Build a point from a spherical triple, computing the Cartesian fields.
    pub fn from_spherical(r: Fx, phi: Fx, theta: Fx) -> (p: SphericalPoint)
        requires
            r.wf(),
            phi.wf(),
            theta.wf(),
            0 <= r.raw <= R_CAP,
            -PI_FX <= phi.raw <= TWOPI_FX,
            0 <= theta.raw <= PI_FX,
        ensures
            p.wf(),
            p.r == r,
            p.phi == phi,
            p.theta == theta,
            p.x.raw as int == sph_x_raw(r.raw as int, phi.raw as int, theta.raw as int),
            p.y.raw as int == sph_y_raw(r.raw as int, phi.raw as int, theta.raw as int),
            p.z.raw as int == sph_z_raw(r.raw as int, theta.raw as int),
            p == mk_sph(r.raw as int, phi.raw as int, theta.raw as int),
    {
        let ap = if phi.raw < 0 {
            Fx { raw: phi.raw + TWOPI_FX }
        } else {
            phi
        };
        let st = sin_full(theta);
        let ct = cos_full(theta);
        let sp = sin_full(ap);
        let cp = cos_full(ap);
        proof {
            fx::lemma_mul_raw_bound(r.raw as int, st.raw as int, R_CAP as int, 20 * (ONE as int));
            fx::lemma_mul_raw_bound(r.raw as int, ct.raw as int, R_CAP as int, 20 * (ONE as int));
        }
        let rs = r.mul_in_range(st);
        let z = r.mul_in_range(ct);
        proof {
            fx::lemma_mul_raw_bound(
                rs.raw as int,
                cp.raw as int,
                20 * (R_CAP as int),
                20 * (ONE as int),
            );
            fx::lemma_mul_raw_bound(
                rs.raw as int,
                sp.raw as int,
                20 * (R_CAP as int),
                20 * (ONE as int),
            );
        }
        let x = rs.mul_in_range(cp);
        let y = rs.mul_in_range(sp);
        SphericalPoint { x, y, z, r, phi, theta }
    }
}

/// Largest Cartesian coordinate magnitude the constructor admits (about
/// 3.5e4 in physical units).
pub const CART_CAP: i64 = 35184372088832;

/// Bisection inverse of the library's cosine on `[0, pi]`, forty steps.
pub open spec fn acos_iter(lo: int, hi: int, t: int, k: int) -> int
    decreases k,
{
    if k <= 0 {
        (lo + hi) / 2
    } else {
        let mid = (lo + hi) / 2;
        if cos_full_raw(mid) >= t {
            acos_iter(mid, hi, t, k - 1)
        } else {
            acos_iter(lo, mid, t, k - 1)
        }
    }
}

/// Arc cosine, as the bisection inverse of the library's cosine.
pub open spec fn acos_raw(t: int) -> int {
    acos_iter(0, PI_FX as int, t, 40)
}

/// Arc cosine on `[0, pi]` by bisection of the library's cosine; arguments
/// outside `[-1, 1]` land at the nearest end of the interval.
pub fn acos_fx(t: Fx) -> (res: Fx)
    requires
        t.wf(),
    ensures
        res.raw as int == acos_raw(t.raw as int),
        0 <= res.raw <= PI_FX,
        res.wf(),
{
    let mut lo: i64 = 0;
    let mut hi: i64 = PI_FX;
    let mut k: usize = 0;
    while k < 40
        invariant
            t.wf(),
            0 <= lo <= hi <= PI_FX,
            k <= 40,
            acos_iter(lo as int, hi as int, t.raw as int, 40 - k) == acos_raw(t.raw as int),
        decreases 40 - k,
    {
        let mid = ((lo as u64 + hi as u64) / 2) as i64;
        let c = cos_full(Fx { raw: mid });
        if c.raw >= t.raw {
            lo = mid;
        } else {
            hi = mid;
        }
        k += 1;
    }
    Fx { raw: ((lo as u64 + hi as u64) / 2) as i64 }
}

/// Radius of a Cartesian triple.
pub open spec fn cart_r_raw(x: int, y: int, z: int) -> int {
    sqrt_nat((mul_raw(x, x) + mul_raw(y, y) + mul_raw(z, z)) * (SCALE as int))
}

/// Places the magnitude `a` of the azimuth (in `[0, pi/2]`) into the
/// quadrant given by the signs of `x` and `y`, landing in `(-pi, pi]`.
pub open spec fn quadrant_phi(x: int, y: int, a: int) -> int {
    if x > 0 {
        if y < 0 {
            -a
        } else {
            a
        }
    } else {
        if y < 0 {
            -(PI_FX as int - a)
        } else {
            PI_FX as int - a
        }
    }
}

/// Azimuth of a Cartesian pair, quadrant-corrected from the signs of `x`
/// and `y`: the magnitude is `acos(1/sqrt(1 + (y/x)^2))`, the principal
/// arc tangent of `|y/x|`.  An overflowed quotient saturates at `pi/2`
/// magnitude, and `x = 0` takes the same limit.
pub open spec fn cart_phi_raw(x: int, y: int) -> int {
    if x == 0 {
        if y > 0 {
            HALFPI_FX as int
        } else if y < 0 {
            -(HALFPI_FX as int)
        } else {
            0
        }
    } else {
        match chk(div_raw(y, x)) {
            None => quadrant_phi(x, y, HALFPI_FX as int),
            Some(t) => match chk(mul_raw(t, t)) {
                None => quadrant_phi(x, y, HALFPI_FX as int),
                Some(t2) => match chk(ONE as int + t2) {
                    None => quadrant_phi(x, y, HALFPI_FX as int),
                    Some(s1) => {
                        let s = sqrt_nat(s1 * (SCALE as int));
                        let u = div_raw(ONE as int, s);
                        quadrant_phi(x, y, acos_raw(u))
                    },
                },
            },
        }
    }
}

/// Polar angle of a Cartesian triple with radius `r`.
pub open spec fn cart_theta_raw(z: int, r: int) -> int {
    if r == 0 {
        0
    } else {
        match chk(div_raw(z, r)) {
            None => if z < 0 {
                PI_FX as int
            } else {
                0
            },
            Some(tz) => acos_raw(tz),
        }
    }
}

fn quadrant_fx(x: Fx, y: Fx, a: Fx) -> (res: Fx)
    requires
        a.wf(),
        0 <= a.raw <= PI_FX,
    ensures
        res.raw as int == quadrant_phi(x.raw as int, y.raw as int, a.raw as int),
        -PI_FX <= res.raw <= PI_FX,
        res.wf(),
{
    if x.raw > 0 {
        if y.raw < 0 {
            Fx { raw: -a.raw }
        } else {
            a
        }
    } else {
        if y.raw < 0 {
            Fx { raw: -(PI_FX - a.raw) }
        } else {
            Fx { raw: PI_FX - a.raw }
        }
    }
}

impl SphericalPoint {
    /// Build a point from a Cartesian triple, computing the spherical
    /// fields.  The azimuth is quadrant-corrected from the signs of x and
    /// y, so the full range `(-pi, pi]` is recovered; at `x = 0` it
    /// saturates at the arc tangent's limit, and at the origin both angles
    /// are zero (degenerate directions with no canonical angle).
    pub fn from_cartesian(x: Fx, y: Fx, z: Fx) -> (p: SphericalPoint)
        requires
            x.wf(),
            y.wf(),
            z.wf(),
            iabs(x.raw as int) <= CART_CAP,
            iabs(y.raw as int) <= CART_CAP,
            iabs(z.raw as int) <= CART_CAP,
        ensures
            p.wf(),
            p.x == x,
            p.y == y,
            p.z == z,
            p.r.raw as int == cart_r_raw(x.raw as int, y.raw as int, z.raw as int),
            p.phi.raw as int == cart_phi_raw(x.raw as int, y.raw as int),
            p.theta.raw as int == cart_theta_raw(z.raw as int, p.r.raw as int),
    {
        proof {
            vstd::arithmetic::div_mod::lemma_fundamental_div_mod_converse(
                1237940039285380274899124224int,
                SCALE as int,
                288230376151711744int,
                0,
            );
            fx::lemma_mul_raw_bound(x.raw as int, x.raw as int, CART_CAP as int, CART_CAP as int);
            fx::lemma_mul_raw_bound(y.raw as int, y.raw as int, CART_CAP as int, CART_CAP as int);
            fx::lemma_mul_raw_bound(z.raw as int, z.raw as int, CART_CAP as int, CART_CAP as int);
            fx::lemma_sign_mul(x.raw as int, x.raw as int);
            fx::lemma_sign_mul(y.raw as int, y.raw as int);
            fx::lemma_sign_mul(z.raw as int, z.raw as int);
        }
        let x2 = x.mul_in_range(x);
        let y2 = y.mul_in_range(y);
        let z2 = z.mul_in_range(z);
        let sum = Fx { raw: x2.raw + y2.raw + z2.raw };
        let r = match sum.checked_sqrt() {
            Some(v) => v,
            None => Fx { raw: 0 },
        };
        proof {
            fx::lemma_sqrt_nat_bounds((sum.raw as int) * (SCALE as int));
            assert((sum.raw as int) * (SCALE as int) <= 3713820117856140824697372672int)
                by (nonlinear_arith)
                requires
                    0 <= sum.raw as int <= 864691128455135232int,
            ;
            assert(r.raw as int <= R_CAP as int) by (nonlinear_arith)
                requires
                    (r.raw as int) * (r.raw as int) <= (sum.raw as int) * (SCALE as int),
                    (sum.raw as int) * (SCALE as int) <= 3713820117856140824697372672int,
                    r.raw as int >= 0,
            ;
        }
        let phi: Fx = if x.raw == 0 {
            if y.raw > 0 {
                Fx { raw: HALFPI_FX }
            } else if y.raw < 0 {
                Fx { raw: -HALFPI_FX }
            } else {
                Fx { raw: 0 }
            }
        } else {
            match y.checked_div(x) {
                None => quadrant_fx(x, y, Fx { raw: HALFPI_FX }),
                Some(t) => match t.checked_mul(t) {
                    None => quadrant_fx(x, y, Fx { raw: HALFPI_FX }),
                    Some(t2) => {
                        proof {
                            fx::lemma_sign_mul(t.raw as int, t.raw as int);
                        }
                        match t2.checked_add(Fx::one()) {
                            None => quadrant_fx(x, y, Fx { raw: HALFPI_FX }),
                            Some(s1) => {
                                let s = match s1.checked_sqrt() {
                                    Some(v) => v,
                                    None => Fx { raw: 0 },
                                };
                                proof {
                                    fx::lemma_sqrt_nat_bounds((s1.raw as int) * (SCALE as int));
                                    assert(s.raw as int >= ONE as int) by (nonlinear_arith)
                                        requires
                                            (s1.raw as int) * (SCALE as int) < ((s.raw as int) + 1)
                                                * ((s.raw as int) + 1),
                                            s1.raw as int >= ONE as int,
                                            (ONE as int) * (SCALE as int)
                                                == 18446744073709551616int,
                                            s.raw as int >= 0,
                                    ;
                                    fx::lemma_sign_mul(ONE as int, SCALE as int);
                                    vstd::arithmetic::div_mod::lemma_div_is_ordered_by_denominator(
                                        (ONE as int) * (SCALE as int),
                                        SCALE as int,
                                        s.raw as int,
                                    );
                                    vstd::arithmetic::div_mod::lemma_div_by_multiple(
                                        ONE as int,
                                        SCALE as int,
                                    );
                                }
                                let u = Fx::one().div_in_range(s);
                                quadrant_fx(x, y, acos_fx(u))
                            },
                        }
                    },
                },
            }
        };
        let theta: Fx = if r.raw == 0 {
            Fx { raw: 0 }
        } else {
            match z.checked_div(r) {
                None => {
                    if z.raw < 0 {
                        Fx { raw: PI_FX }
                    } else {
                        Fx { raw: 0 }
                    }
                },
                Some(tz) => acos_fx(tz),
            }
        };
        SphericalPoint { x, y, z, r, phi, theta }
    }
}

/// Apply the single wrap-around correction to both angles.
pub fn normalize_angles(phi: Fx, theta: Fx) -> (res: (Fx, Fx))
    requires
        phi.wf(),
        theta.wf(),
        in_range(phi.raw + TWOPI_FX),
        in_range(phi.raw - TWOPI_FX),
        in_range(theta.raw + PI_FX),
        in_range(theta.raw - PI_FX),
    ensures
        res.0.raw as int == norm_phi_raw(phi.raw as int),
        res.1.raw as int == norm_theta_raw(theta.raw as int),
        res.0.wf(),
        res.1.wf(),
{
    let np = if phi.raw < 0 {
        Fx { raw: phi.raw + TWOPI_FX }
    } else if phi.raw > TWOPI_FX {
        Fx { raw: phi.raw - TWOPI_FX }
    } else {
        phi
    };
    let nt = if theta.raw < 0 {
        Fx { raw: theta.raw + PI_FX }
    } else if theta.raw > PI_FX {
        Fx { raw: theta.raw - PI_FX }
    } else {
        theta
    };
    (np, nt)
}

/// Angle normalization is idempotent: an already-normalized angle (phi in
/// [0, 2*pi], theta in [0, pi]) is left unchanged, so normalizing a point
/// that came out of `normalize_angles` is a no-op.
pub proof fn lemma_normalize_idempotent(phi: int, theta: int)
    requires
        -(TWOPI_FX as int) <= phi <= 2 * (TWOPI_FX as int),
        -(PI_FX as int) <= theta <= 2 * (PI_FX as int),
    ensures
        norm_phi_raw(norm_phi_raw(phi)) == norm_phi_raw(phi),
        norm_theta_raw(norm_theta_raw(theta)) == norm_theta_raw(theta),
        0 <= phi <= TWOPI_FX as int ==> norm_phi_raw(phi) == phi,
        0 <= theta <= PI_FX as int ==> norm_theta_raw(theta) == theta,
{
    lemma_normalize_in_range(phi, theta);
}

/// Normalization lands in the canonical range whenever the input is within
/// one period of it (the caller's step-size guarantee).
pub proof fn lemma_normalize_in_range(phi: int, theta: int)
    requires
        -(TWOPI_FX as int) <= phi <= 2 * (TWOPI_FX as int),
        -(PI_FX as int) <= theta <= 2 * (PI_FX as int),
    ensures
        0 <= norm_phi_raw(phi) <= TWOPI_FX as int,
        0 <= norm_theta_raw(theta) <= PI_FX as int,
{
}

} // verus!
