//! The bond-order-corrected pairwise potential: radial terms, smooth
//! cutoff, three-body angular correction, bond order, per-atom contribution
//! and total cluster energy.  Every executable function is proved equal to
//! its integer specification; a `None` marks arithmetic leaving the
//! representable range or a degenerate geometry (coincident atoms).

use vstd::prelude::*;
use crate::fx::{
    Fx, SCALE, ONE, RAW_MAX, in_range, iabs, tzdiv, mul_raw, div_raw, sqrt_nat, chk, lift, owf,
    oadd, osub, omul, odiv, ohalf, osqrt, ck_add, ck_sub, ck_mul, ck_div, ck_half, ck_sqrt,
};
use crate::fx;
use crate::series::{
    PI_FX, EXP_CAP, exp_neg_raw, exp_neg, ln_raw, ln_fx, cos_full_raw, cos_full,
    lemma_exp_neg_raw_zero, lemma_ln_raw_one,
};
use crate::point::SphericalPoint;

verus! {

// Fixed physical constants of the model, in fixed point (scale 2^32).
/// Equilibrium distance R0 = 1.315.
pub const R0_FX: i64 = 5647881994;

/// Inner cutoff radius R1 = 1.7.
pub const R1_FX: i64 = 7301444403;

/// Outer cutoff radius R2 = 2.0.
pub const R2_FX: i64 = 8589934592;

/// Well depth De = 6.325.
pub const DE_FX: i64 = 27165668147;

/// Stiffness ratio S = 1.29.
pub const S_FX: i64 = 5540507811;

/// Decay rate lambda = 1.5.
pub const LAMBDA_FX: i64 = 6442450944;

/// Bond-order exponent del = 0.80469.
pub const DEL_FX: i64 = 3456117233;

/// Angular constant a0 = 0.011304.
pub const A0_FX: i64 = 48550310;

/// Angular constant c0 = 19.
pub const C0_FX: i64 = 81604378624;

/// Angular constant d0 = 2.5.
pub const D0_FX: i64 = 10737418240;

/// Penalty returned by the angular correction for positive cosines.
pub const TWENTY_FX: i64 = 85899345920;

/// sqrt(2 S) * lambda, the decay of the repulsive term.
pub const KR_FX: i64 = 10348108491;

/// sqrt(2 / S) * lambda, the decay of the attractive term.
pub const KA_FX: i64 = 8021789528;

/// De / (S - 1), the repulsive prefactor.
pub const CR_FX: i64 = 93674717748;

/// De S / (S - 1), the attractive prefactor, chosen so that it is exactly
/// the fixed-point product of S and `CR_FX`.
pub const CA_FX: i64 = 120840385876;

/// All points of a cluster are well-formed.
pub open spec fn wf_all(atoms: Seq<SphericalPoint>) -> bool {
    forall|k: int| 0 <= k < atoms.len() ==> atoms[k].wf()
}

/// Repulsive radial term `v_r(r) = De/(S-1) * exp(-sqrt(2S) lambda (r-R0))`.
pub open spec fn vr_raw(r: int) -> Option<int> {
    let e = mul_raw(KR_FX as int, r - R0_FX as int);
    if e >= 0 {
        Some(mul_raw(CR_FX as int, exp_neg_raw(e)))
    } else {
        let w = exp_neg_raw(-e);
        if w == 0 {
            None
        } else {
            match chk(div_raw(ONE as int, w)) {
                Some(q) => chk(mul_raw(CR_FX as int, q)),
                None => None,
            }
        }
    }
}

/// Attractive radial term `v_a(r) = De S/(S-1) * exp(-sqrt(2/S) lambda (r-R0))`.
pub open spec fn va_raw(r: int) -> Option<int> {
    let e = mul_raw(KA_FX as int, r - R0_FX as int);
    if e >= 0 {
        Some(mul_raw(CA_FX as int, exp_neg_raw(e)))
    } else {
        let w = exp_neg_raw(-e);
        if w == 0 {
            None
        } else {
            match chk(div_raw(ONE as int, w)) {
                Some(q) => chk(mul_raw(CA_FX as int, q)),
                None => None,
            }
        }
    }
}

pub fn vr(r: Fx) -> (res: Option<Fx>)
    requires
        r.wf(),
        0 <= r.raw <= R2_FX,
    ensures
        lift(res) == vr_raw(r.raw as int),
        owf(res),
{
    let d = Fx { raw: r.raw - R0_FX };
    proof {
        fx::lemma_mul_raw_bound(KR_FX as int, d.raw as int, KR_FX as int, R0_FX as int);
    }
    let e = Fx { raw: KR_FX }.mul_in_range(d);
    if e.raw >= 0 {
        let w = exp_neg(e);
        proof {
            fx::lemma_mul_raw_bound(CR_FX as int, w.raw as int, CR_FX as int, ONE as int);
        }
        Some(Fx { raw: CR_FX }.mul_in_range(w))
    } else {
        let w = exp_neg(Fx { raw: -e.raw });
        if w.raw == 0 {
            None
        } else {
            let q = Fx::one().checked_div(w);
            ck_mul(Some(Fx { raw: CR_FX }), q)
        }
    }
}

pub fn va(r: Fx) -> (res: Option<Fx>)
    requires
        r.wf(),
        0 <= r.raw <= R2_FX,
    ensures
        lift(res) == va_raw(r.raw as int),
        owf(res),
{
    let d = Fx { raw: r.raw - R0_FX };
    proof {
        fx::lemma_mul_raw_bound(KA_FX as int, d.raw as int, KA_FX as int, R0_FX as int);
    }
    let e = Fx { raw: KA_FX }.mul_in_range(d);
    if e.raw >= 0 {
        let w = exp_neg(e);
        proof {
            fx::lemma_mul_raw_bound(CA_FX as int, w.raw as int, CA_FX as int, ONE as int);
        }
        Some(Fx { raw: CA_FX }.mul_in_range(w))
    } else {
        let w = exp_neg(Fx { raw: -e.raw });
        if w.raw == 0 {
            None
        } else {
            let q = Fx::one().checked_div(w);
            ck_mul(Some(Fx { raw: CA_FX }), q)
        }
    }
}

/// At the equilibrium distance both exponential factors are exactly one, so
/// `v_r(R0) = De/(S-1)` and `v_a(R0)` is exactly the fixed-point product of
/// S with `v_r(R0)`; in other words `v_r(R0) / v_a(R0) = 1/S` from the
/// closed-form constants.
pub proof fn lemma_vr_va_at_r0()
    ensures
        vr_raw(R0_FX as int) == Some(CR_FX as int),
        va_raw(R0_FX as int) == Some(CA_FX as int),
        CA_FX as int == mul_raw(S_FX as int, CR_FX as int),
{
    lemma_exp_neg_raw_zero();
    assert(mul_raw(KR_FX as int, 0) == 0);
    assert(mul_raw(KA_FX as int, 0) == 0);
    vstd::arithmetic::div_mod::lemma_fundamental_div_mod_converse(
        402329849189690769408int,
        SCALE as int,
        CR_FX as int,
        0,
    );
    assert(mul_raw(CR_FX as int, ONE as int) == CR_FX as int);
    vstd::arithmetic::div_mod::lemma_fundamental_div_mod_converse(
        519005505373440311296int,
        SCALE as int,
        CA_FX as int,
        0,
    );
    assert(mul_raw(CA_FX as int, ONE as int) == CA_FX as int);
    vstd::arithmetic::div_mod::lemma_fundamental_div_mod_converse(
        519005505376014329628int,
        SCALE as int,
        CA_FX as int,
        2574018332int,
    );
    assert(mul_raw(S_FX as int, CR_FX as int) == CA_FX as int);
}

/// Smooth cutoff weight `f_c(r)`: one below R1, a half-cosine ramp between
/// R1 and R2, zero beyond R2.
pub open spec fn fc_raw(r: int) -> int {
    if r <= R1_FX as int {
        ONE as int
    } else if r > R2_FX as int {
        0
    } else {
        let q = div_raw(r - R1_FX as int, R2_FX as int - R1_FX as int);
        let a = mul_raw(PI_FX as int, q);
        tzdiv(ONE as int + cos_full_raw(a), 2)
    }
}

pub fn fc(r: Fx) -> (res: Fx)
    requires
        r.wf(),
        r.raw >= 0,
    ensures
        res.raw as int == fc_raw(r.raw as int),
        iabs(res.raw as int) <= 11 * (ONE as int),
        res.wf(),
{
    if r.raw <= R1_FX {
        Fx { raw: ONE }
    } else if r.raw > R2_FX {
        Fx { raw: 0 }
    } else {
        let num = Fx { raw: r.raw - R1_FX };
        let den = Fx { raw: R2_FX - R1_FX };
        proof {
            vstd::arithmetic::div_mod::lemma_div_is_ordered(
                (num.raw as int) * (SCALE as int),
                (den.raw as int) * (SCALE as int),
                den.raw as int,
            );
            vstd::arithmetic::div_mod::lemma_div_by_multiple(SCALE as int, den.raw as int);
            assert((num.raw as int) * (SCALE as int) <= (den.raw as int) * (SCALE as int))
                by (nonlinear_arith)
                requires
                    0 <= num.raw as int <= den.raw as int,
            ;
            assert((den.raw as int) * (SCALE as int) == (SCALE as int) * (den.raw as int))
                by (nonlinear_arith);
            fx::lemma_sign_mul(num.raw as int, SCALE as int);
        }
        let q = num.div_in_range(den);
        proof {
            fx::lemma_mul_raw_bound(PI_FX as int, q.raw as int, PI_FX as int, SCALE as int);
            fx::lemma_sign_mul(PI_FX as int, q.raw as int);
            assert(iabs(mul_raw(PI_FX as int, q.raw as int)) <= PI_FX as int);
        }
        let a = Fx { raw: PI_FX }.mul_in_range(q);
        let c = cos_full(a);
        let s: i64 = ONE + c.raw;
        let m = fx::mag(s) / 2;
        proof {
            vstd::arithmetic::div_mod::lemma_div_nonincreasing(iabs(s as int), 2);
        }
        if s < 0 {
            Fx { raw: -(m as i64) }
        } else {
            Fx { raw: m as i64 }
        }
    }
}

/// Distance between two points, from their Cartesian fields.
pub open spec fn dist_raw(p: SphericalPoint, q: SphericalPoint) -> Option<int> {
    let dx = osub(Some(q.x.raw as int), Some(p.x.raw as int));
    let dy = osub(Some(q.y.raw as int), Some(p.y.raw as int));
    let dz = osub(Some(q.z.raw as int), Some(p.z.raw as int));
    osqrt(oadd(oadd(omul(dx, dx), omul(dy, dy)), omul(dz, dz)))
}

pub fn dist(p: &SphericalPoint, q: &SphericalPoint) -> (res: Option<Fx>)
    requires
        p.wf(),
        q.wf(),
    ensures
        lift(res) == dist_raw(*p, *q),
        owf(res),
        res matches Some(v) ==> v.raw >= 0,
{
    let dx = q.x.checked_sub(p.x);
    let dy = q.y.checked_sub(p.y);
    let dz = q.z.checked_sub(p.z);
    ck_sqrt(ck_add(ck_add(ck_mul(dx, dx), ck_mul(dy, dy)), ck_mul(dz, dz)))
}

/// Cosine of the angle at atom `i` between the bonds to `j` and to `k`.
pub open spec fn cosang_raw(atoms: Seq<SphericalPoint>, i: int, j: int, k: int) -> Option<int> {
    let pi = atoms[i];
    let pj = atoms[j];
    let pk = atoms[k];
    let xj = osub(Some(pj.x.raw as int), Some(pi.x.raw as int));
    let yj = osub(Some(pj.y.raw as int), Some(pi.y.raw as int));
    let zj = osub(Some(pj.z.raw as int), Some(pi.z.raw as int));
    let xk = osub(Some(pk.x.raw as int), Some(pi.x.raw as int));
    let yk = osub(Some(pk.y.raw as int), Some(pi.y.raw as int));
    let zk = osub(Some(pk.z.raw as int), Some(pi.z.raw as int));
    let dot = oadd(oadd(omul(xj, xk), omul(yj, yk)), omul(zj, zk));
    odiv(odiv(dot, dist_raw(pi, pj)), dist_raw(pi, pk))
}

pub fn cosang(atoms: &Vec<SphericalPoint>, i: usize, j: usize, k: usize) -> (res: Option<Fx>)
    requires
        wf_all(atoms@),
        i < atoms.len(),
        j < atoms.len(),
        k < atoms.len(),
    ensures
        lift(res) == cosang_raw(atoms@, i as int, j as int, k as int),
        owf(res),
{
    let xj = atoms[j].x.checked_sub(atoms[i].x);
    let yj = atoms[j].y.checked_sub(atoms[i].y);
    let zj = atoms[j].z.checked_sub(atoms[i].z);
    let xk = atoms[k].x.checked_sub(atoms[i].x);
    let yk = atoms[k].y.checked_sub(atoms[i].y);
    let zk = atoms[k].z.checked_sub(atoms[i].z);
    let dot = ck_add(ck_add(ck_mul(xj, xk), ck_mul(yj, yk)), ck_mul(zj, zk));
    let n1 = dist(&atoms[i], &atoms[j]);
    let n2 = dist(&atoms[i], &atoms[k]);
    ck_div(ck_div(dot, n1), n2)
}

/// Angular correction `g(cos)`: the fixed penalty for positive cosines,
/// otherwise `a0 (1 + c0^2/d0^2 - c0^2/(d0^2 + (1+cos)^2))`.
pub open spec fn g_raw(ca: Option<int>) -> Option<int> {
    match ca {
        None => None,
        Some(c) => if c > 0 {
            Some(TWENTY_FX as int)
        } else {
            let c2 = mul_raw(C0_FX as int, C0_FX as int);
            let d2 = mul_raw(D0_FX as int, D0_FX as int);
            let q1 = div_raw(c2, d2);
            let u = oadd(Some(ONE as int), Some(c));
            let den = oadd(Some(d2), omul(u, u));
            let q2 = odiv(Some(c2), den);
            omul(Some(A0_FX as int), osub(oadd(Some(ONE as int), Some(q1)), q2))
        },
    }
}

pub fn gcorr(ca: Option<Fx>) -> (res: Option<Fx>)
    requires
        owf(ca),
    ensures
        lift(res) == g_raw(lift(ca)),
        owf(res),
{
    match ca {
        None => None,
        Some(c) => {
            if c.raw > 0 {
                Some(Fx { raw: TWENTY_FX })
            } else {
                let c0 = Fx { raw: C0_FX };
                let d0 = Fx { raw: D0_FX };
                proof {
                    vstd::arithmetic::div_mod::lemma_fundamental_div_mod_converse(
                        6659274610609148133376int,
                        SCALE as int,
                        1550483193856int,
                        0,
                    );
                    assert(mul_raw(C0_FX as int, C0_FX as int) == 1550483193856int);
                    vstd::arithmetic::div_mod::lemma_fundamental_div_mod_converse(
                        115292150460684697600int,
                        SCALE as int,
                        26843545600int,
                        0,
                    );
                    assert(mul_raw(D0_FX as int, D0_FX as int) == 26843545600int);
                    vstd::arithmetic::div_mod::lemma_fundamental_div_mod_converse(
                        6659274610609148133376int,
                        26843545600int,
                        248077311016int,
                        25769803776int,
                    );
                    assert(div_raw(1550483193856int, 26843545600int) == 248077311016int);
                }
                let c2 = c0.mul_in_range(c0);
                let d2 = d0.mul_in_range(d0);
                let q1 = c2.div_in_range(d2);
                let u = ck_add(Some(Fx::one()), Some(c));
                let den = ck_add(Some(d2), ck_mul(u, u));
                let q2 = ck_div(Some(c2), den);
                ck_mul(Some(Fx { raw: A0_FX }), ck_sub(ck_add(Some(Fx::one()), Some(q1)), q2))
            }
        },
    }
}

/// One term of the bond-order sum: the cutoff-weighted angular correction
/// contributed by the third atom `k`.
pub open spec fn ksi_term_raw(atoms: Seq<SphericalPoint>, i: int, j: int, k: int) -> Option<int> {
    match dist_raw(atoms[i], atoms[k]) {
        None => None,
        Some(rik) => if rik <= R1_FX as int {
            g_raw(cosang_raw(atoms, i, j, k))
        } else if rik <= R2_FX as int {
            omul(Some(fc_raw(rik)), g_raw(cosang_raw(atoms, i, j, k)))
        } else {
            Some(0)
        },
    }
}

/// Bond-order sum over the third atoms below `n`.
pub open spec fn ksi_upto(atoms: Seq<SphericalPoint>, i: int, j: int, n: int) -> Option<int>
    decreases n,
{
    if n <= 0 {
        Some(0)
    } else if n - 1 == i || n - 1 == j {
        ksi_upto(atoms, i, j, n - 1)
    } else {
        oadd(ksi_upto(atoms, i, j, n - 1), ksi_term_raw(atoms, i, j, n - 1))
    }
}

/// `ksi_ij`: the full bond-order sum for the ordered pair `(i, j)`.
pub open spec fn ksi_raw(atoms: Seq<SphericalPoint>, i: int, j: int) -> Option<int> {
    ksi_upto(atoms, i, j, atoms.len() as int)
}

fn ksi_term(atoms: &Vec<SphericalPoint>, i: usize, j: usize, k: usize) -> (res: Option<Fx>)
    requires
        wf_all(atoms@),
        i < atoms.len(),
        j < atoms.len(),
        k < atoms.len(),
    ensures
        lift(res) == ksi_term_raw(atoms@, i as int, j as int, k as int),
        owf(res),
{
    let d = dist(&atoms[i], &atoms[k]);
    match d {
        None => None,
        Some(rik) => {
            if rik.raw <= R1_FX {
                gcorr(cosang(atoms, i, j, k))
            } else if rik.raw <= R2_FX {
                let w = fc(rik);
                ck_mul(Some(w), gcorr(cosang(atoms, i, j, k)))
            } else {
                Some(Fx::zero())
            }
        },
    }
}

pub fn ksi(atoms: &Vec<SphericalPoint>, i: usize, j: usize) -> (res: Option<Fx>)
    requires
        wf_all(atoms@),
        i < atoms.len(),
        j < atoms.len(),
    ensures
        lift(res) == ksi_raw(atoms@, i as int, j as int),
        owf(res),
{
    let n = atoms.len();
    let mut acc: Option<Fx> = Some(Fx::zero());
    let mut k: usize = 0;
    while k < n
        invariant
            wf_all(atoms@),
            i < atoms@.len(),
            j < atoms@.len(),
            n == atoms@.len(),
            k <= n,
            owf(acc),
            lift(acc) == ksi_upto(atoms@, i as int, j as int, k as int),
        decreases n - k,
    {
        if k != i && k != j {
            let term = ksi_term(atoms, i, j, k);
            acc = ck_add(acc, term);
        }
        k += 1;
        proof {
            assert(ksi_upto(atoms@, i as int, j as int, k as int) == if k - 1 == i as int || k - 1
                == j as int {
                ksi_upto(atoms@, i as int, j as int, k - 1)
            } else {
                oadd(
                    ksi_upto(atoms@, i as int, j as int, k - 1),
                    ksi_term_raw(atoms@, i as int, j as int, k - 1),
                )
            });
        }
    }
    acc
}

/// Bond-order factor `b_ij = (1 + ksi)^(-del)`, through `exp` and `ln`;
/// `None` where `1 + ksi` is not positive (a degeneracy the model leaves
/// undefined) or the arithmetic leaves the range.
pub open spec fn bfac_raw(ksiv: Option<int>) -> Option<int> {
    match ksiv {
        None => None,
        Some(s) => if s >= 0 {
            match chk(ONE as int + s) {
                None => None,
                Some(b) => Some(exp_neg_raw(mul_raw(DEL_FX as int, ln_raw(b)))),
            }
        } else if ONE as int + s > 0 {
            match chk(div_raw(ONE as int, ONE as int + s)) {
                None => None,
                Some(v) => {
                    let w = exp_neg_raw(mul_raw(DEL_FX as int, ln_raw(v)));
                    if w == 0 {
                        None
                    } else {
                        chk(div_raw(ONE as int, w))
                    }
                },
            }
        } else {
            None
        },
    }
}

pub fn bfac(ksiv: Option<Fx>) -> (res: Option<Fx>)
    requires
        owf(ksiv),
    ensures
        lift(res) == bfac_raw(lift(ksiv)),
        owf(res),
{
    match ksiv {
        None => None,
        Some(s) => {
            if s.raw >= 0 {
                match s.checked_add(Fx::one()) {
                    None => {
                        proof {
                            assert(chk(ONE as int + s.raw) is None);
                        }
                        None
                    },
                    Some(b) => {
                        proof {
                            assert(b.raw as int == s.raw + ONE);
                        }
                        let l = ln_fx(b);
                        proof {
                            fx::lemma_mul_raw_bound(
                                DEL_FX as int,
                                l.raw as int,
                                DEL_FX as int,
                                140000000000int,
                            );
                            fx::lemma_sign_mul(DEL_FX as int, l.raw as int);
                        }
                        let a = Fx { raw: DEL_FX }.mul_in_range(l);
                        proof {
                            assert(a.raw >= 0) by {
                                assert(iabs((DEL_FX as int) * (l.raw as int)) == iabs(
                                    DEL_FX as int,
                                ) * iabs(l.raw as int)) by {
                                    fx::lemma_abs_mul(DEL_FX as int, l.raw as int);
                                }
                            }
                        }
                        Some(exp_neg(a))
                    },
                }
            } else if s.raw > -ONE {
                let b = Fx { raw: ONE + s.raw };
                match Fx::one().checked_div(b) {
                    None => None,
                    Some(v) => {
                        proof {
                            // 1/(1+ksi) is at least one when 0 < 1+ksi < 1
                            vstd::arithmetic::div_mod::lemma_div_is_ordered_by_denominator(
                                (ONE as int) * (SCALE as int),
                                b.raw as int,
                                SCALE as int,
                            );
                            vstd::arithmetic::div_mod::lemma_div_by_multiple(
                                ONE as int,
                                SCALE as int,
                            );
                            fx::lemma_sign_mul(ONE as int, SCALE as int);
                        }
                        let l = ln_fx(v);
                        proof {
                            fx::lemma_mul_raw_bound(
                                DEL_FX as int,
                                l.raw as int,
                                DEL_FX as int,
                                140000000000int,
                            );
                            fx::lemma_sign_mul(DEL_FX as int, l.raw as int);
                            fx::lemma_abs_mul(DEL_FX as int, l.raw as int);
                        }
                        let a = Fx { raw: DEL_FX }.mul_in_range(l);
                        let w = exp_neg(a);
                        if w.raw == 0 {
                            None
                        } else {
                            Fx::one().checked_div(w)
                        }
                    },
                }
            } else {
                None
            }
        },
    }
}

/// Symmetrized bond order `B_ij = (b_ij + b_ji) / 2`.
pub open spec fn bavg_raw(atoms: Seq<SphericalPoint>, i: int, j: int) -> Option<int> {
    ohalf(oadd(bfac_raw(ksi_raw(atoms, i, j)), bfac_raw(ksi_raw(atoms, j, i))))
}

pub fn bavg(atoms: &Vec<SphericalPoint>, i: usize, j: usize) -> (res: Option<Fx>)
    requires
        wf_all(atoms@),
        i < atoms.len(),
        j < atoms.len(),
    ensures
        lift(res) == bavg_raw(atoms@, i as int, j as int),
        owf(res),
{
    ck_half(ck_add(bfac(ksi(atoms, i, j)), bfac(ksi(atoms, j, i))))
}

/// Contribution of the pair `(i, j)` to atom `i`'s energy.
pub open spec fn vi_term_raw(atoms: Seq<SphericalPoint>, i: int, j: int) -> Option<int> {
    match dist_raw(atoms[i], atoms[j]) {
        None => None,
        Some(rij) => if rij <= R1_FX as int {
            osub(vr_raw(rij), omul(bavg_raw(atoms, i, j), va_raw(rij)))
        } else if rij <= R2_FX as int {
            omul(Some(fc_raw(rij)), osub(vr_raw(rij), omul(bavg_raw(atoms, i, j), va_raw(rij))))
        } else {
            Some(0)
        },
    }
}

/// Per-atom energy summed over the other atoms below `n`.
pub open spec fn vi_upto(atoms: Seq<SphericalPoint>, i: int, n: int) -> Option<int>
    decreases n,
{
    if n <= 0 {
        Some(0)
    } else if n - 1 == i {
        vi_upto(atoms, i, n - 1)
    } else {
        oadd(vi_upto(atoms, i, n - 1), vi_term_raw(atoms, i, n - 1))
    }
}

/// Per-atom energy contribution `_vi(i)`.
pub open spec fn vi_raw(atoms: Seq<SphericalPoint>, i: int) -> Option<int> {
    vi_upto(atoms, i, atoms.len() as int)
}

fn vi_term(atoms: &Vec<SphericalPoint>, i: usize, j: usize) -> (res: Option<Fx>)
    requires
        wf_all(atoms@),
        i < atoms.len(),
        j < atoms.len(),
    ensures
        lift(res) == vi_term_raw(atoms@, i as int, j as int),
        owf(res),
{
    let d = dist(&atoms[i], &atoms[j]);
    match d {
        None => None,
        Some(rij) => {
            if rij.raw <= R1_FX {
                ck_sub(vr(rij), ck_mul(bavg(atoms, i, j), va(rij)))
            } else if rij.raw <= R2_FX {
                let w = fc(rij);
                ck_mul(Some(w), ck_sub(vr(rij), ck_mul(bavg(atoms, i, j), va(rij))))
            } else {
                Some(Fx::zero())
            }
        },
    }
}

/// Per-atom energy contribution of atom `i`.
#[verifier::rlimit(100)]
pub fn vi(atoms: &Vec<SphericalPoint>, i: usize) -> (res: Option<Fx>)
    requires
        wf_all(atoms@),
        i < atoms.len(),
    ensures
        lift(res) == vi_raw(atoms@, i as int),
        owf(res),
{
    let n = atoms.len();
    let mut acc: Option<Fx> = Some(Fx::zero());
    let mut j: usize = 0;
    while j < n
        invariant
            wf_all(atoms@),
            i < atoms@.len(),
            n == atoms@.len(),
            j <= n,
            owf(acc),
            lift(acc) == vi_upto(atoms@, i as int, j as int),
        decreases n - j,
    {
        if j != i {
            let term = vi_term(atoms, i, j);
            acc = ck_add(acc, term);
        }
        j += 1;
        proof {
            assert(vi_upto(atoms@, i as int, j as int) == if j - 1 == i as int {
                vi_upto(atoms@, i as int, j - 1)
            } else {
                oadd(vi_upto(atoms@, i as int, j - 1), vi_term_raw(atoms@, i as int, j - 1))
            });
        }
    }
    acc
}

proof fn lemma_sq_iter_bounds(v: int, k: int)
    requires
        0 <= v <= ONE as int,
    ensures
        0 <= crate::series::sq_iter(v, k) <= ONE as int,
    decreases k,
{
    if k > 0 {
        assert(v * v <= v * (SCALE as int)) by (nonlinear_arith)
            requires
                0 <= v <= SCALE as int,
        ;
        assert(v * v >= 0) by (nonlinear_arith)
            requires
                v >= 0,
        ;
        vstd::arithmetic::div_mod::lemma_div_is_ordered(v * v, v * (SCALE as int), SCALE as int);
        vstd::arithmetic::div_mod::lemma_div_by_multiple(v, SCALE as int);
        vstd::arithmetic::div_mod::lemma_div_pos_is_pos(v * v, SCALE as int);
        lemma_sq_iter_bounds((v * v) / (SCALE as int), k - 1);
    }
}

/// The exponential of a nonpositive argument lies in `[0, 1]`.
pub proof fn lemma_exp_neg_raw_bounds(x: int)
    requires
        x >= 0,
    ensures
        0 <= exp_neg_raw(x) <= ONE as int,
{
    if x <= EXP_CAP as int {
        let y = x / 0x100000;
        vstd::arithmetic::div_mod::lemma_div_pos_is_pos(x, 0x100000);
        vstd::arithmetic::div_mod::lemma_div_is_ordered(x, EXP_CAP as int, 0x100000);
        let t = (y * y) / (SCALE as int);
        assert(y * y <= y * (SCALE as int)) by (nonlinear_arith)
            requires
                0 <= y <= SCALE as int,
        ;
        assert(y * y >= 0) by (nonlinear_arith)
            requires
                y >= 0,
        ;
        vstd::arithmetic::div_mod::lemma_div_is_ordered(y * y, y * (SCALE as int), SCALE as int);
        vstd::arithmetic::div_mod::lemma_div_by_multiple(y, SCALE as int);
        vstd::arithmetic::div_mod::lemma_div_pos_is_pos(y * y, SCALE as int);
        vstd::arithmetic::div_mod::lemma_div_nonincreasing(t, 2);
        vstd::arithmetic::div_mod::lemma_div_pos_is_pos(t, 2);
        lemma_sq_iter_bounds(ONE as int - y + t / 2, 20);
    }
}

/// Multiplying by fixed-point one is exact.
proof fn lemma_one_mul(v: int)
    ensures
        mul_raw(ONE as int, v) == v,
{
    fx::lemma_abs_mul(ONE as int, v);
    fx::lemma_sign_mul(ONE as int, v);
    vstd::arithmetic::div_mod::lemma_div_by_multiple(iabs(v), SCALE as int);
    assert(iabs(ONE as int) * iabs(v) == iabs(v) * (SCALE as int)) by (nonlinear_arith)
        requires
            ONE as int == SCALE as int,
    ;
}

/// Any value a radial term yields is in the representable range.
proof fn lemma_va_some_in_range(r: int)
    ensures
        va_raw(r) matches Some(v) ==> in_range(v),
        vr_raw(r) matches Some(v) ==> in_range(v),
{
    let ea = mul_raw(KA_FX as int, r - R0_FX as int);
    if ea >= 0 {
        lemma_exp_neg_raw_bounds(ea);
        fx::lemma_mul_raw_bound(CA_FX as int, exp_neg_raw(ea), CA_FX as int, ONE as int);
        vstd::arithmetic::div_mod::lemma_div_by_multiple(CA_FX as int, SCALE as int);
    }
    let er = mul_raw(KR_FX as int, r - R0_FX as int);
    if er >= 0 {
        lemma_exp_neg_raw_bounds(er);
        fx::lemma_mul_raw_bound(CR_FX as int, exp_neg_raw(er), CR_FX as int, ONE as int);
        vstd::arithmetic::div_mod::lemma_div_by_multiple(CR_FX as int, SCALE as int);
    }
}

/// Both radial terms are nonnegative wherever they are defined: the
/// prefactors are positive and the exponential factors lie in [0, 1].
pub proof fn lemma_radial_terms_nonneg(r: int)
    ensures
        vr_raw(r) matches Some(v) ==> v >= 0,
        va_raw(r) matches Some(v) ==> v >= 0,
{
    let er = mul_raw(KR_FX as int, r - R0_FX as int);
    if er >= 0 {
        lemma_exp_neg_raw_bounds(er);
        fx::lemma_sign_mul(CR_FX as int, exp_neg_raw(er));
    } else {
        lemma_exp_neg_raw_bounds(-er);
        let w = exp_neg_raw(-er);
        if w > 0 {
            fx::lemma_sign_mul(ONE as int, SCALE as int);
            vstd::arithmetic::div_mod::lemma_div_pos_is_pos((ONE as int) * (SCALE as int), w);
            match chk(div_raw(ONE as int, w)) {
                Some(q) => {
                    fx::lemma_sign_mul(CR_FX as int, q);
                },
                None => {},
            }
        }
    }
    let ea = mul_raw(KA_FX as int, r - R0_FX as int);
    if ea >= 0 {
        lemma_exp_neg_raw_bounds(ea);
        fx::lemma_sign_mul(CA_FX as int, exp_neg_raw(ea));
    } else {
        lemma_exp_neg_raw_bounds(-ea);
        let w = exp_neg_raw(-ea);
        if w > 0 {
            fx::lemma_sign_mul(ONE as int, SCALE as int);
            vstd::arithmetic::div_mod::lemma_div_pos_is_pos((ONE as int) * (SCALE as int), w);
            match chk(div_raw(ONE as int, w)) {
                Some(q) => {
                    fx::lemma_sign_mul(CA_FX as int, q);
                },
                None => {},
            }
        }
    }
}

/// For a nonnegative bond-order sum the bond-order factor
/// `(1 + ksi)^(-del)` lies in [0, 1]: the exponent `del ln(1 + ksi)` is
/// nonnegative, and the exponential of a nonpositive argument is at most
/// one.
pub proof fn lemma_bond_order_range(s: int)
    requires
        s >= 0,
    ensures
        bfac_raw(Some(s)) matches Some(b) ==> 0 <= b <= ONE as int,
{
    match chk(ONE as int + s) {
        None => {},
        Some(b1) => {
            crate::series::lemma_ln_raw_nonneg(b1);
            fx::lemma_sign_mul(DEL_FX as int, ln_raw(b1));
            lemma_exp_neg_raw_bounds(mul_raw(DEL_FX as int, ln_raw(b1)));
        },
    }
}

/// The bond-order factor of an empty bond-order sum is exactly one.
proof fn lemma_bfac_zero()
    ensures
        bfac_raw(Some(0int)) == Some(ONE as int),
{
    crate::series::lemma_ln_raw_one();
    crate::series::lemma_exp_neg_raw_zero();
    assert(mul_raw(DEL_FX as int, 0int) == 0int);
    assert(chk(ONE as int + 0) == Some(ONE as int));
}

/// With no third atom both bond-order sums are empty and the symmetrized
/// bond order is exactly one.
proof fn lemma_two_atom_bavg(atoms: Seq<SphericalPoint>)
    requires
        atoms.len() == 2,
    ensures
        bavg_raw(atoms, 0, 1) == Some(ONE as int),
        bavg_raw(atoms, 1, 0) == Some(ONE as int),
{
    assert(ksi_upto(atoms, 0, 1, 0) == Some(0int));
    assert(ksi_upto(atoms, 0, 1, 1) == ksi_upto(atoms, 0, 1, 0));
    assert(ksi_upto(atoms, 0, 1, 2) == ksi_upto(atoms, 0, 1, 1));
    assert(ksi_upto(atoms, 1, 0, 0) == Some(0int));
    assert(ksi_upto(atoms, 1, 0, 1) == ksi_upto(atoms, 1, 0, 0));
    assert(ksi_upto(atoms, 1, 0, 2) == ksi_upto(atoms, 1, 0, 1));
    lemma_bfac_zero();
    assert(oadd(Some(ONE as int), Some(ONE as int)) == Some(2 * (ONE as int)));
    vstd::arithmetic::div_mod::lemma_div_by_multiple(ONE as int, 2);
    assert(tzdiv(2 * (ONE as int), 2) == ONE as int) by {
        assert((ONE as int) * 2 == 2 * (ONE as int)) by (nonlinear_arith);
    }
}

/// The pair distance is the same from either endpoint.
proof fn lemma_dist_sym(p0: SphericalPoint, p1: SphericalPoint)
    ensures
        dist_raw(p0, p1) == dist_raw(p1, p0),
{
    assert((p1.x.raw - p0.x.raw) * (p1.x.raw - p0.x.raw) == (p0.x.raw - p1.x.raw) * (p0.x.raw
        - p1.x.raw)) by (nonlinear_arith);
    assert((p1.y.raw - p0.y.raw) * (p1.y.raw - p0.y.raw) == (p0.y.raw - p1.y.raw) * (p0.y.raw
        - p1.y.raw)) by (nonlinear_arith);
    assert((p1.z.raw - p0.z.raw) * (p1.z.raw - p0.z.raw) == (p0.z.raw - p1.z.raw) * (p0.z.raw
        - p1.z.raw)) by (nonlinear_arith);
}

/// In a two-atom cluster the one pair term is the same seen from either
/// side, and within the inner cutoff it is exactly `v_r(r) - v_a(r)`.
#[verifier::rlimit(100)]
proof fn lemma_two_atom_term(atoms: Seq<SphericalPoint>)
    requires
        atoms.len() == 2,
    ensures
        vi_term_raw(atoms, 0, 1) == vi_term_raw(atoms, 1, 0),
        (match dist_raw(atoms[0], atoms[1]) {
            Some(r) => r <= R1_FX as int ==> vi_term_raw(atoms, 0, 1) == osub(
                vr_raw(r),
                va_raw(r),
            ),
            None => true,
        }),
{
    lemma_dist_sym(atoms[0], atoms[1]);
    lemma_two_atom_bavg(atoms);
    match dist_raw(atoms[0], atoms[1]) {
        None => {
        },
        Some(r) => {
            lemma_va_some_in_range(r);
            match va_raw(r) {
                None => {},
                Some(v) => {
                    lemma_one_mul(v);
                    assert(omul(Some(ONE as int), Some(v)) == Some(v));
                },
            }
        },
    }
}

/// For a two-atom cluster the two per-atom contributions coincide (the
/// distance and bond order are symmetric), the total energy is the common
/// per-atom value (half of the doubled sum), and within the inner cutoff it
/// is exactly `v_r(r) - v_a(r)`: the bond order degenerates to one since
/// `ksi = 0` with no third atom present.
#[verifier::rlimit(100)]
pub proof fn lemma_two_atom_cluster(atoms: Seq<SphericalPoint>)
    requires
        atoms.len() == 2,
        atoms[0].wf(),
        atoms[1].wf(),
    ensures
        vi_raw(atoms, 0) == vi_raw(atoms, 1),
        (match dist_raw(atoms[0], atoms[1]) {
            Some(r) => r <= R1_FX as int ==> vi_raw(atoms, 0) == osub(vr_raw(r), va_raw(r)),
            None => true,
        }),
        (vi_raw(atoms, 0) matches Some(t) ==> (in_range(2 * t) ==> energy_raw(atoms) == Some(t))),
{
    lemma_two_atom_term(atoms);
    assert(vi_upto(atoms, 0, 0) == Some(0int));
    assert(vi_upto(atoms, 0, 1) == vi_upto(atoms, 0, 0));
    assert(vi_raw(atoms, 0) == oadd(Some(0int), vi_term_raw(atoms, 0, 1)));
    assert(vi_upto(atoms, 1, 0) == Some(0int));
    assert(vi_upto(atoms, 1, 1) == oadd(Some(0int), vi_term_raw(atoms, 1, 0)));
    assert(vi_upto(atoms, 1, 2) == vi_upto(atoms, 1, 1));
    assert(vi_raw(atoms, 1) == oadd(Some(0int), vi_term_raw(atoms, 1, 0)));
    if vi_raw(atoms, 0) is Some {
        let t = vi_raw(atoms, 0)->Some_0;
        assert(vsum_upto(atoms, 0) == Some(0int));
        assert(vsum_upto(atoms, 1) == oadd(Some(0int), vi_raw(atoms, 0)));
        assert(vsum_upto(atoms, 2) == oadd(vsum_upto(atoms, 1), vi_raw(atoms, 1)));
        if in_range(2 * t) {
            vstd::arithmetic::div_mod::lemma_div_by_multiple(iabs(t), 2);
            assert(iabs(2 * t) == 2 * iabs(t)) by (nonlinear_arith);
            assert(iabs(t) * 2 == 2 * iabs(t)) by (nonlinear_arith);
            assert(tzdiv(2 * t, 2) == t);
        }
    }
}

/// Sum of the per-atom contributions below `n`.
pub open spec fn vsum_upto(atoms: Seq<SphericalPoint>, n: int) -> Option<int>
    decreases n,
{
    if n <= 0 {
        Some(0)
    } else {
        oadd(vsum_upto(atoms, n - 1), vi_raw(atoms, n - 1))
    }
}

/// Total cluster energy: half the sum of all per-atom contributions.
pub open spec fn energy_raw(atoms: Seq<SphericalPoint>) -> Option<int> {
    ohalf(vsum_upto(atoms, atoms.len() as int))
}

/// Total cluster energy, refreshing nothing: callers cache it themselves.
pub fn energy(atoms: &Vec<SphericalPoint>) -> (res: Option<Fx>)
    requires
        wf_all(atoms@),
    ensures
        lift(res) == energy_raw(atoms@),
        owf(res),
{
    let n = atoms.len();
    let mut acc: Option<Fx> = Some(Fx::zero());
    let mut i: usize = 0;
    while i < n
        invariant
            wf_all(atoms@),
            n == atoms@.len(),
            i <= n,
            owf(acc),
            lift(acc) == vsum_upto(atoms@, i as int),
        decreases n - i,
    {
        let term = vi(atoms, i);
        acc = ck_add(acc, term);
        i += 1;
    }
    ck_half(acc)
}

} // verus!
