//! The Monte Carlo engine: the annealing schedule, the Metropolis
//! acceptance rule, the per-atom local move, the global radial rescale, and
//! the annealing run that drives them.  The decision logic is deterministic
//! and fully specified over the drawn uniform variates; the random drivers
//! feed it values from the generator and are proved for every outcome.

use vstd::prelude::*;
use crate::fx::{
    Fx, SCALE, ONE, RAW_MAX, in_range, iabs, tzdiv, mul_raw, div_raw, chk, lift, owf, oadd, osub,
    omul, ck_add, ck_mul,
};
use crate::fx;
use crate::series::{TWOPI_FX, PI_FX, exp_neg_raw, exp_neg, ln_raw, ln_fx};
use crate::point::{
    SphericalPoint, R_CAP, mk_sph, norm_phi_raw, norm_theta_raw, normalize_angles,
    lemma_normalize_in_range,
};
use crate::potential::{wf_all, vi_raw, vi, energy_raw, energy};
use crate::cluster::Cluster;
use crate::rng::next_unit;

verus! {

/// Step scale of the radial part of a local move (1e-4).
pub const W_R_FX: i64 = 429496;

/// Step scale of the angular parts of a local move (0.05).
pub const W_ANG_FX: i64 = 214748364;

/// Step scale of the global radial rescale (1e-4).
pub const W_ALL_FX: i64 = 429496;

/// Configuration of one annealing run.
pub struct RunParams {
    pub beta_min: Fx,
    pub beta_max: Fx,
    pub p: Fx,
    pub it_max: usize,
    pub save_step: usize,
}

impl RunParams {
    pub open spec fn wf(self) -> bool {
        &&& self.beta_min.wf()
        &&& self.beta_max.wf()
        &&& self.p.wf()
        &&& self.beta_min.raw >= 0
        &&& self.beta_max.raw >= 0
        &&& self.p.raw >= 0
        &&& self.it_max >= 1
        &&& self.save_step >= 1
    }
}

/// Metropolis acceptance probability `min(1, exp(-beta dv))`; arithmetic
/// past the exponential's range saturates to zero, where the true value is
/// below the resolution of the representation anyway.
pub open spec fn acc_prob_raw(beta: int, dv: int) -> int {
    if dv <= 0 {
        ONE as int
    } else {
        match chk(mul_raw(beta, dv)) {
            None => 0,
            Some(b) => exp_neg_raw(b),
        }
    }
}

/// The Metropolis acceptance probability is exactly one whenever the
/// proposed energy does not exceed the current one, for every beta >= 0
/// (indeed for every beta: the rule does not consult it then).
pub proof fn lemma_metropolis_certain(beta: int, dv: int)
    requires
        dv <= 0,
    ensures
        acc_prob_raw(beta, dv) == ONE as int,
{
}

pub fn acc_prob(beta: Fx, dv: Fx) -> (p: Fx)
    requires
        beta.wf(),
        dv.wf(),
        beta.raw >= 0,
    ensures
        p.raw as int == acc_prob_raw(beta.raw as int, dv.raw as int),
        0 <= p.raw <= ONE,
        p.wf(),
{
    if dv.raw <= 0 {
        Fx::one()
    } else {
        match beta.checked_mul(dv) {
            None => Fx::zero(),
            Some(b) => {
                proof {
                    fx::lemma_sign_mul(beta.raw as int, dv.raw as int);
                }
                exp_neg(b)
            },
        }
    }
}

/// A multiplicative proposal `v + v (2u - 1) w`, with the rounding of each
/// step.
pub open spec fn prop_raw(v: int, u: int, w: int) -> Option<int> {
    let du = 2 * u - ONE as int;
    oadd(Some(v), omul(omul(Some(v), Some(du)), Some(w)))
}

fn propose(v: Fx, u: Fx, w: Fx) -> (res: Option<Fx>)
    requires
        v.wf(),
        u.wf(),
        w.wf(),
        0 <= u.raw <= ONE,
        0 <= w.raw,
    ensures
        lift(res) == prop_raw(v.raw as int, u.raw as int, w.raw as int),
        owf(res),
        res matches Some(nv) ==> iabs(nv.raw - v.raw) <= (iabs(v.raw as int) * (w.raw as int)) / (
        SCALE as int),
{
    let du = Fx { raw: 2 * u.raw - ONE };
    let t1 = v.checked_mul(du);
    proof {
        fx::lemma_mul_raw_bound(v.raw as int, du.raw as int, iabs(v.raw as int), SCALE as int);
        vstd::arithmetic::div_mod::lemma_div_by_multiple(iabs(v.raw as int), SCALE as int);
        if t1 is Some {
            fx::lemma_mul_raw_bound(
                t1->Some_0.raw as int,
                w.raw as int,
                iabs(v.raw as int),
                w.raw as int,
            );
        }
    }
    let t2 = ck_mul(t1, Some(w));
    ck_add(Some(v), t2)
}

/// The result of one local move given the four uniform variates: the new
/// point sequence and whether the proposal was accepted; `None` where the
/// arithmetic leaves the range.  On rejection the atom is rebuilt from its
/// old spherical triple through the constructor, not by raw assignment.
pub open spec fn atom_shift_raw(
    atoms: Seq<SphericalPoint>,
    i: int,
    beta: int,
    u1: int,
    u2: int,
    u3: int,
    u4: int,
) -> Option<(Seq<SphericalPoint>, bool)> {
    let p = atoms[i];
    match vi_raw(atoms, i) {
        None => None,
        Some(vold) => match (
            prop_raw(p.r.raw as int, u1, W_R_FX as int),
            prop_raw(p.phi.raw as int, u2, W_ANG_FX as int),
            prop_raw(p.theta.raw as int, u3, W_ANG_FX as int),
        ) {
            (Some(rn), Some(pn), Some(tn)) => {
                let np = norm_phi_raw(pn);
                let nt = norm_theta_raw(tn);
                if !(0 <= rn <= R_CAP as int) || !(0 <= np <= TWOPI_FX as int) || !(0 <= nt
                    <= PI_FX as int) {
                    None
                } else {
                    let upd = atoms.update(i, mk_sph(rn, np, nt));
                    match vi_raw(upd, i) {
                        None => None,
                        Some(vnew) => match chk(vnew - vold) {
                            None => None,
                            Some(dv) => if u4 <= acc_prob_raw(beta, dv) {
                                Some((upd, true))
                            } else {
                                Some(
                                    (
                                        atoms.update(
                                            i,
                                            mk_sph(
                                                p.r.raw as int,
                                                p.phi.raw as int,
                                                p.theta.raw as int,
                                            ),
                                        ),
                                        false,
                                    ),
                                )
                            },
                        },
                    }
                }
            },
            _ => None,
        },
    }
}

/// One local move: perturb atom `i` in spherical coordinates, normalize its
/// angles, rebuild it, and accept or revert by the Metropolis rule.
#[verifier::rlimit(100)]
pub fn atom_shift(c: &mut Cluster, i: usize, beta: Fx, u1: Fx, u2: Fx, u3: Fx, u4: Fx) -> (res:
    Option<bool>)
    requires
        old(c).wf(),
        i < old(c).atoms@.len(),
        beta.wf(),
        beta.raw >= 0,
        u1.wf() && 0 <= u1.raw <= ONE,
        u2.wf() && 0 <= u2.raw <= ONE,
        u3.wf() && 0 <= u3.raw <= ONE,
        u4.wf() && 0 <= u4.raw <= ONE,
    ensures
        final(c).wf(),
        final(c).atoms@.len() == old(c).atoms@.len(),
        final(c).energy == old(c).energy,
        match res {
            None => final(c).atoms@ == old(c).atoms@ && atom_shift_raw(
                old(c).atoms@,
                i as int,
                beta.raw as int,
                u1.raw as int,
                u2.raw as int,
                u3.raw as int,
                u4.raw as int,
            ) is None,
            Some(acc) => atom_shift_raw(
                old(c).atoms@,
                i as int,
                beta.raw as int,
                u1.raw as int,
                u2.raw as int,
                u3.raw as int,
                u4.raw as int,
            ) == Some((final(c).atoms@, acc)),
        },
{
    let p = c.atoms[i];
    let vold = match vi(&c.atoms, i) {
        None => {
            return None;
        },
        Some(v) => v,
    };
    let rn_o = propose(p.r, u1, Fx { raw: W_R_FX });
    let pn_o = propose(p.phi, u2, Fx { raw: W_ANG_FX });
    let tn_o = propose(p.theta, u3, Fx { raw: W_ANG_FX });
    let (rn, pn, tn) = match (rn_o, pn_o, tn_o) {
        (Some(a), Some(b), Some(d)) => (a, b, d),
        _ => {
            return None;
        },
    };
    proof {
        // the perturbed angles stay within one period of their ranges
        vstd::arithmetic::div_mod::lemma_div_is_ordered(
            iabs(p.phi.raw as int) * (W_ANG_FX as int),
            (TWOPI_FX as int) * (W_ANG_FX as int),
            SCALE as int,
        );
        assert(iabs(p.phi.raw as int) * (W_ANG_FX as int) <= (TWOPI_FX as int) * (W_ANG_FX as int))
            by (nonlinear_arith)
            requires
                0 <= iabs(p.phi.raw as int) <= TWOPI_FX as int,
        ;
        vstd::arithmetic::div_mod::lemma_div_is_ordered(
            iabs(p.theta.raw as int) * (W_ANG_FX as int),
            (PI_FX as int) * (W_ANG_FX as int),
            SCALE as int,
        );
        assert(iabs(p.theta.raw as int) * (W_ANG_FX as int) <= (PI_FX as int) * (W_ANG_FX as int))
            by (nonlinear_arith)
            requires
                0 <= iabs(p.theta.raw as int) <= PI_FX as int,
        ;
        lemma_normalize_in_range(pn.raw as int, tn.raw as int);
    }
    let (np, nt) = normalize_angles(pn, tn);
    if rn.raw < 0 || rn.raw > R_CAP {
        return None;
    }
    let cand = SphericalPoint::from_spherical(rn, np, nt);
    let ghost before = c.atoms@;
    c.atoms.set(i, cand);
    proof {
        assert forall|k: int| 0 <= k < c.atoms@.len() implies c.atoms@[k].wf() by {
            if k != i as int {
                assert(c.atoms@[k] == before[k]);
            }
        }
    }
    let vnew = match vi(&c.atoms, i) {
        None => {
            c.atoms.set(i, p);
            proof {
                assert(c.atoms@ =~= before);
            }
            return None;
        },
        Some(v) => v,
    };
    let dv = match vnew.checked_sub(vold) {
        None => {
            c.atoms.set(i, p);
            proof {
                assert(c.atoms@ =~= before);
            }
            return None;
        },
        Some(v) => v,
    };
    let pa = acc_prob(beta, dv);
    if u4.raw <= pa.raw {
        Some(true)
    } else {
        let back = SphericalPoint::from_spherical(p.r, p.phi, p.theta);
        c.atoms.set(i, back);
        proof {
            assert(c.atoms@ =~= before.update(
                i as int,
                mk_sph(p.r.raw as int, p.phi.raw as int, p.theta.raw as int),
            ));
            assert forall|k: int| 0 <= k < c.atoms@.len() implies c.atoms@[k].wf() by {
                if k != i as int {
                    assert(c.atoms@[k] == before[k]);
                }
            }
        }
        Some(false)
    }
}

/// The common multiplicative factor of a global radial rescale.
pub open spec fn rc_raw(u1: int) -> int {
    ONE as int + mul_raw(W_ALL_FX as int, 2 * u1 - ONE as int)
}

/// All radii scaled by `rc`, each atom rebuilt from its spherical triple;
/// `None` where a scaled radius leaves the representable range.
pub open spec fn scale_upto(atoms: Seq<SphericalPoint>, rc: int, n: int) -> Option<
    Seq<SphericalPoint>,
>
    decreases n,
{
    if n <= 0 {
        Some(Seq::empty())
    } else {
        match scale_upto(atoms, rc, n - 1) {
            None => None,
            Some(s) => {
                let rk = mul_raw(atoms[n - 1].r.raw as int, rc);
                if 0 <= rk <= R_CAP as int {
                    Some(
                        s.push(mk_sph(rk, atoms[n - 1].phi.raw as int, atoms[n - 1].theta.raw as int)),
                    )
                } else {
                    None
                }
            },
        }
    }
}

/// The result of one global move given the two uniform variates; on
/// rejection the whole snapshotted position array is restored.
pub open spec fn global_shift_raw(atoms: Seq<SphericalPoint>, beta: int, u1: int, u2: int) -> Option<
    (Seq<SphericalPoint>, bool),
> {
    match energy_raw(atoms) {
        None => None,
        Some(eold) => match scale_upto(atoms, rc_raw(u1), atoms.len() as int) {
            None => None,
            Some(upd) => match energy_raw(upd) {
                None => None,
                Some(enew) => match chk(enew - eold) {
                    None => None,
                    Some(dv) => if u2 <= acc_prob_raw(beta, dv) {
                        Some((upd, true))
                    } else {
                        Some((atoms, false))
                    },
                },
            },
        },
    }
}

proof fn lemma_scale_none_mono(atoms: Seq<SphericalPoint>, rc: int, j: int, l: int)
    requires
        scale_upto(atoms, rc, j) is None,
        j <= l,
    ensures
        scale_upto(atoms, rc, l) is None,
    decreases l - j,
{
    if l > j {
        lemma_scale_none_mono(atoms, rc, j, l - 1);
    }
}

fn copy_points(v: &Vec<SphericalPoint>) -> (out: Vec<SphericalPoint>)
    ensures
        out@ == v@,
{
    let mut out: Vec<SphericalPoint> = Vec::new();
    let mut k: usize = 0;
    while k < v.len()
        invariant
            k <= v@.len(),
            out@ == v@.take(k as int),
        decreases v@.len() - k,
    {
        out.push(v[k]);
        proof {
            assert(out@ =~= v@.take(k as int + 1));
        }
        k += 1;
    }
    proof {
        assert(v@.take(v@.len() as int) =~= v@);
    }
    out
}

/// One global move: rescale every radius by a common random factor, rebuild
/// all atoms, recompute the total energy (refreshing the cache), and accept
/// or restore the snapshot by the Metropolis rule.  Once the move reaches
/// the energy recomputation, the cache holds the energy of the scaled
/// configuration whether or not the move was kept (the tracked energy
/// reflects the post-move state); on the earlier exits it is unchanged.
#[verifier::rlimit(100)]
pub fn global_shift(c: &mut Cluster, beta: Fx, u1: Fx, u2: Fx) -> (res: Option<bool>)
    requires
        old(c).wf(),
        beta.wf(),
        beta.raw >= 0,
        u1.wf() && 0 <= u1.raw <= ONE,
        u2.wf() && 0 <= u2.raw <= ONE,
    ensures
        final(c).wf(),
        final(c).atoms@.len() == old(c).atoms@.len(),
        energy_raw(old(c).atoms@) is None ==> final(c).energy == old(c).energy,
        energy_raw(old(c).atoms@) is Some ==> (match scale_upto(
            old(c).atoms@,
            rc_raw(u1.raw as int),
            old(c).atoms@.len() as int,
        ) {
            Some(upd) => (match energy_raw(upd) {
                Some(en) => final(c).energy.raw as int == en,
                None => final(c).energy == old(c).energy,
            }),
            None => final(c).energy == old(c).energy,
        }),
        match res {
            None => final(c).atoms@ == old(c).atoms@ && global_shift_raw(
                old(c).atoms@,
                beta.raw as int,
                u1.raw as int,
                u2.raw as int,
            ) is None,
            Some(acc) => global_shift_raw(
                old(c).atoms@,
                beta.raw as int,
                u1.raw as int,
                u2.raw as int,
            ) == Some((final(c).atoms@, acc)),
        },
{
    let n = c.atoms.len();
    let snap = copy_points(&c.atoms);
    let eold = match energy(&c.atoms) {
        None => {
            return None;
        },
        Some(v) => v,
    };
    let du = Fx { raw: 2 * u1.raw - ONE };
    proof {
        fx::lemma_mul_raw_bound(W_ALL_FX as int, du.raw as int, W_ALL_FX as int, SCALE as int);
        vstd::arithmetic::div_mod::lemma_div_by_multiple(W_ALL_FX as int, SCALE as int);
    }
    let rcv = Fx { raw: ONE + Fx { raw: W_ALL_FX }.mul_in_range(du).raw };
    let ghost before = c.atoms@;
    let mut k: usize = 0;
    while k < n
        invariant
            n == c.atoms@.len(),
            before == old(c).atoms@,
            snap@ == before,
            old(c).wf(),
            c.energy == old(c).energy,
            Some(eold.raw as int) == energy_raw(before),
            before.len() == n,
            k <= n,
            rcv.wf(),
            rcv.raw as int == rc_raw(u1.raw as int),
            iabs(rcv.raw as int) <= ONE + W_ALL_FX,
            wf_all(before),
            forall|m: int| k <= m < n ==> c.atoms@[m] == before[m],
            forall|m: int| 0 <= m < n ==> (#[trigger] c.atoms@[m]).wf(),
            Some(c.atoms@.take(k as int)) == scale_upto(before, rcv.raw as int, k as int),
        decreases n - k,
    {
        let pk = c.atoms[k];
        proof {
            fx::lemma_mul_raw_bound(
                pk.r.raw as int,
                rcv.raw as int,
                R_CAP as int,
                ONE + W_ALL_FX,
            );
            vstd::arithmetic::div_mod::lemma_fundamental_div_mod_converse(
                1209046711991226494615552int,
                SCALE as int,
                281503124160512int,
                0,
            );
        }
        let rk = pk.r.mul_in_range(rcv);
        if rk.raw < 0 || rk.raw > R_CAP {
            proof {
                assert(scale_upto(before, rcv.raw as int, k as int + 1) is None);
                lemma_scale_none_mono(before, rcv.raw as int, k as int + 1, n as int);
            }
            let old_atoms = copy_points(&snap);
            c.atoms = old_atoms;
            return None;
        }
        let pt = SphericalPoint::from_spherical(rk, pk.phi, pk.theta);
        let ghost pre = c.atoms@;
        c.atoms.set(k, pt);
        proof {
            assert(c.atoms@.take(k as int) =~= pre.take(k as int));
            assert(c.atoms@.take(k as int + 1) =~= c.atoms@.take(k as int).push(pt));
            assert(scale_upto(before, rcv.raw as int, k as int + 1) == Some(
                c.atoms@.take(k as int + 1),
            ));
        }
        k += 1;
    }
    proof {
        assert(c.atoms@.take(n as int) =~= c.atoms@);
    }
    let enew = match energy(&c.atoms) {
        None => {
            let old_atoms = copy_points(&snap);
            c.atoms = old_atoms;
            return None;
        },
        Some(v) => v,
    };
    c.energy = enew;
    let dv = match enew.checked_sub(eold) {
        None => {
            let old_atoms = copy_points(&snap);
            c.atoms = old_atoms;
            return None;
        },
        Some(v) => v,
    };
    let pa = acc_prob(beta, dv);
    if u2.raw <= pa.raw {
        Some(true)
    } else {
        let old_atoms = copy_points(&snap);
        c.atoms = old_atoms;
        Some(false)
    }
}

/// Fraction of the run completed, in fixed point.
pub open spec fn frac_raw(it: int, it_max: int) -> int
    recommends
        it_max > 0,
{
    (it * (SCALE as int)) / it_max
}

/// `x^p` for `x` in `[0, 1]` and `p >= 0`, through `exp(-p ln(1/x))`.
pub open spec fn pow01_raw(x: int, p: int) -> Option<int> {
    if x <= 0 {
        Some(0)
    } else if x >= ONE as int {
        Some(ONE as int)
    } else {
        match chk(div_raw(ONE as int, x)) {
            None => None,
            Some(inv) => match chk(mul_raw(p, ln_raw(inv))) {
                None => None,
                Some(a) => Some(exp_neg_raw(a)),
            },
        }
    }
}

/// The annealing schedule `beta_min + (it/it_max)^p (beta_max - beta_min)`.
pub open spec fn get_beta_raw(it: int, it_max: int, bmin: int, bmax: int, p: int) -> Option<int> {
    if it == 0 {
        Some(bmin)
    } else {
        match pow01_raw(frac_raw(it, it_max), p) {
            None => None,
            Some(pw) => oadd(Some(bmin), omul(Some(pw), osub(Some(bmax), Some(bmin)))),
        }
    }
}

/// Inverse temperature of iteration `it`, per the annealing schedule.
pub fn get_beta(it: usize, params: &RunParams) -> (res: Option<Fx>)
    requires
        params.wf(),
        it <= params.it_max,
    ensures
        lift(res) == get_beta_raw(
            it as int,
            params.it_max as int,
            params.beta_min.raw as int,
            params.beta_max.raw as int,
            params.p.raw as int,
        ),
        owf(res),
{
    if it == 0 {
        return Some(params.beta_min);
    }
    let xq: u128 = ((it as u128) * (SCALE as u128)) / (params.it_max as u128);
    proof {
        assert((it as int) * (SCALE as int) <= (params.it_max as int) * (SCALE as int))
            by (nonlinear_arith)
            requires
                0 <= it as int <= params.it_max as int,
        ;
        vstd::arithmetic::div_mod::lemma_div_is_ordered(
            (it as int) * (SCALE as int),
            (params.it_max as int) * (SCALE as int),
            params.it_max as int,
        );
        vstd::arithmetic::div_mod::lemma_div_by_multiple(SCALE as int, params.it_max as int);
        assert((params.it_max as int) * (SCALE as int) == (SCALE as int) * (params.it_max as int))
            by (nonlinear_arith);
    }
    let x = Fx { raw: xq as i64 };
    let pw: Option<Fx> = if x.raw <= 0 {
        Some(Fx::zero())
    } else if x.raw >= ONE {
        Some(Fx::one())
    } else {
        match Fx::one().checked_div(x) {
            None => None,
            Some(inv) => {
                proof {
                    fx::lemma_sign_mul(ONE as int, SCALE as int);
                    vstd::arithmetic::div_mod::lemma_div_is_ordered_by_denominator(
                        (ONE as int) * (SCALE as int),
                        x.raw as int,
                        SCALE as int,
                    );
                    vstd::arithmetic::div_mod::lemma_div_by_multiple(ONE as int, SCALE as int);
                }
                let l = ln_fx(inv);
                match params.p.checked_mul(l) {
                    None => None,
                    Some(a) => {
                        proof {
                            fx::lemma_sign_mul(params.p.raw as int, l.raw as int);
                        }
                        Some(exp_neg(a))
                    },
                }
            },
        }
    };
    match pw {
        None => None,
        Some(pwv) => ck_add(
            Some(params.beta_min),
            ck_mul(Some(pwv), params.beta_max.checked_sub(params.beta_min)),
        ),
    }
}

/// One atom of the randomized cluster: built through the spherical
/// constructor from the given radius and some drawn angle pair, phi in
/// [0, 2 pi) and theta in [0, pi).
pub open spec fn on_sphere(p: SphericalPoint, radius: int) -> bool {
    exists|ph: int, th: int|
        0 <= ph < TWOPI_FX as int && 0 <= th < PI_FX as int && p == mk_sph(radius, ph, th)
}

/// Place every atom on a sphere of the given radius, with phi drawn
/// uniformly from [0, 2 pi) and theta uniformly from [0, pi) — uniform in
/// theta, not in cos(theta), as specified.
pub fn randomize_on_sphere(c: &mut Cluster, radius: Fx, rng: &mut rand::rngs::StdRng)
    requires
        old(c).wf(),
        radius.wf(),
        0 <= radius.raw <= R_CAP,
    ensures
        final(c).wf(),
        final(c).atoms@.len() == old(c).atoms@.len(),
        final(c).energy == old(c).energy,
        forall|k: int|
            0 <= k < final(c).atoms@.len() ==> (#[trigger] final(c).atoms@[k]).r == radius,
        forall|k: int|
            0 <= k < final(c).atoms@.len() ==> on_sphere(
                #[trigger] final(c).atoms@[k],
                radius.raw as int,
            ),
{
    let n = c.atoms.len();
    let mut k: usize = 0;
    while k < n
        invariant
            n == c.atoms@.len(),
            k <= n,
            radius.wf(),
            0 <= radius.raw <= R_CAP,
            c.energy == old(c).energy,
            old(c).wf(),
            forall|m: int| 0 <= m < n ==> (#[trigger] c.atoms@[m]).wf(),
            forall|m: int| 0 <= m < k ==> (#[trigger] c.atoms@[m]).r == radius,
            forall|m: int| 0 <= m < k ==> on_sphere(#[trigger] c.atoms@[m], radius.raw as int),
        decreases n - k,
    {
        let up = next_unit(rng);
        let ut = next_unit(rng);
        proof {
            fx::lemma_mul_raw_bound(up.raw as int, TWOPI_FX as int, SCALE as int, TWOPI_FX as int);
            vstd::arithmetic::div_mod::lemma_div_by_multiple(TWOPI_FX as int, SCALE as int);
            assert((SCALE as int) * (TWOPI_FX as int) == (TWOPI_FX as int) * (SCALE as int))
                by (nonlinear_arith);
            fx::lemma_sign_mul(up.raw as int, TWOPI_FX as int);
            fx::lemma_mul_raw_bound(ut.raw as int, PI_FX as int, SCALE as int, PI_FX as int);
            vstd::arithmetic::div_mod::lemma_div_by_multiple(PI_FX as int, SCALE as int);
            assert((SCALE as int) * (PI_FX as int) == (PI_FX as int) * (SCALE as int))
                by (nonlinear_arith);
            fx::lemma_sign_mul(ut.raw as int, PI_FX as int);
        }
        let phi = up.mul_in_range(Fx { raw: TWOPI_FX });
        let theta = ut.mul_in_range(Fx { raw: PI_FX });
        proof {
            assert(iabs(mul_raw(up.raw as int, TWOPI_FX as int)) <= TWOPI_FX as int);
            assert(iabs(mul_raw(ut.raw as int, PI_FX as int)) <= PI_FX as int);
        }
        proof {
            // a draw strictly below one lands strictly inside the period
            vstd::arithmetic::div_mod::lemma_fundamental_div_mod_converse(
                115904311302058748655int,
                SCALE as int,
                26986075402int,
                3078695663int,
            );
            vstd::arithmetic::div_mod::lemma_div_is_ordered(
                (up.raw as int) * (TWOPI_FX as int),
                (ONE as int - 1) * (TWOPI_FX as int),
                SCALE as int,
            );
            assert((up.raw as int) * (TWOPI_FX as int) <= (ONE as int - 1) * (TWOPI_FX as int))
                by (nonlinear_arith)
                requires
                    0 <= up.raw as int <= ONE as int - 1,
            ;
            vstd::arithmetic::div_mod::lemma_fundamental_div_mod_converse(
                57952155648881890680int,
                SCALE as int,
                13493037700int,
                3686831480int,
            );
            vstd::arithmetic::div_mod::lemma_div_is_ordered(
                (ut.raw as int) * (PI_FX as int),
                (ONE as int - 1) * (PI_FX as int),
                SCALE as int,
            );
            assert((ut.raw as int) * (PI_FX as int) <= (ONE as int - 1) * (PI_FX as int))
                by (nonlinear_arith)
                requires
                    0 <= ut.raw as int <= ONE as int - 1,
            ;
        }
        let pt = SphericalPoint::from_spherical(radius, phi, theta);
        c.atoms.set(k, pt);
        proof {
            assert(0 <= phi.raw < TWOPI_FX && 0 <= theta.raw < PI_FX && pt == mk_sph(
                radius.raw as int,
                phi.raw as int,
                theta.raw as int,
            ));
            assert(on_sphere(pt, radius.raw as int));
        }
        k += 1;
    }
}

/// One full annealing run: for each iteration, compute beta from the
/// schedule, try one local move per atom in the fixed order 0..N, then one
/// global rescale; record the cached energy and the mean radius every
/// `save_step` iterations.  `None` marks arithmetic leaving the
/// representable range; the cluster is left in its state at that point.
pub fn anneal(c: &mut Cluster, params: &RunParams, rng: &mut rand::rngs::StdRng) -> (res: Option<
    (Vec<Fx>, Vec<Fx>),
>)
    requires
        old(c).wf(),
        params.wf(),
    ensures
        final(c).wf(),
        final(c).atoms@.len() == old(c).atoms@.len(),
        res matches Some(tr) ==> {
            &&& tr.0@.len() == tr.1@.len()
            &&& tr.0@.len() == (params.it_max as int - 1) / (params.save_step as int) + 1
            &&& crate::cluster::wf_all_fx(tr.0@)
            &&& crate::cluster::wf_all_fx(tr.1@)
        },
{
    let n = c.atoms.len();
    let mut e_trace: Vec<Fx> = Vec::new();
    let mut r_trace: Vec<Fx> = Vec::new();
    let mut it: usize = 0;
    let ghost ss = params.save_step as int;
    proof {
        vstd::arithmetic::div_mod::lemma_fundamental_div_mod_converse(ss - 1, ss, 0, ss - 1);
    }
    while it < params.it_max
        invariant
            params.wf(),
            ss == params.save_step as int,
            it <= params.it_max,
            c.wf(),
            n == c.atoms@.len(),
            n == old(c).atoms@.len(),
            e_trace@.len() == r_trace@.len(),
            e_trace@.len() == (it as int + ss - 1) / ss,
            crate::cluster::wf_all_fx(e_trace@),
            crate::cluster::wf_all_fx(r_trace@),
        decreases params.it_max - it,
    {
        let ghost itg = it as int;
        proof {
            vstd::arithmetic::div_mod::lemma_fundamental_div_mod(itg, ss);
            let q = itg / ss;
            let rr = itg % ss;
            assert((q + 1) * ss == q * ss + ss) by (nonlinear_arith);
            if rr == 0 {
                vstd::arithmetic::div_mod::lemma_fundamental_div_mod_converse(
                    itg + ss,
                    ss,
                    q + 1,
                    0,
                );
                vstd::arithmetic::div_mod::lemma_fundamental_div_mod_converse(
                    itg + ss - 1,
                    ss,
                    q,
                    ss - 1,
                );
            } else {
                vstd::arithmetic::div_mod::lemma_fundamental_div_mod_converse(
                    itg + ss,
                    ss,
                    q + 1,
                    rr,
                );
                vstd::arithmetic::div_mod::lemma_fundamental_div_mod_converse(
                    itg + ss - 1,
                    ss,
                    q + 1,
                    rr - 1,
                );
            }
        }
        let beta = match get_beta(it, params) {
            None => {
                return None;
            },
            Some(b) => b,
        };
        if beta.raw < 0 {
            return None;
        }
        let mut i: usize = 0;
        while i < n
            invariant
                params.wf(),
                c.wf(),
                n == c.atoms@.len(),
                n == old(c).atoms@.len(),
                i <= n,
                beta.wf(),
                beta.raw >= 0,
            decreases n - i,
        {
            let u1 = next_unit(rng);
            let u2 = next_unit(rng);
            let u3 = next_unit(rng);
            let u4 = next_unit(rng);
            match atom_shift(c, i, beta, u1, u2, u3, u4) {
                None => {
                    return None;
                },
                Some(_) => {},
            }
            i += 1;
        }
        let g1 = next_unit(rng);
        let g2 = next_unit(rng);
        match global_shift(c, beta, g1, g2) {
            None => {
                return None;
            },
            Some(_) => {},
        }
        if it % params.save_step == 0 {
            e_trace.push(c.energy);
            let m = match c.mean_r() {
                None => {
                    return None;
                },
                Some(m) => m,
            };
            r_trace.push(m);
        }
        it += 1;
    }
    proof {
        // it_max iterations record one entry per started save window
        vstd::arithmetic::div_mod::lemma_fundamental_div_mod(params.it_max as int - 1, ss);
        let q = (params.it_max as int - 1) / ss;
        let rr = (params.it_max as int - 1) % ss;
        assert((q + 1) * ss == q * ss + ss) by (nonlinear_arith);
        vstd::arithmetic::div_mod::lemma_fundamental_div_mod_converse(
            params.it_max as int + ss - 1,
            ss,
            q + 1,
            rr,
        );
    }
    Some((e_trace, r_trace))
}

} // verus!
