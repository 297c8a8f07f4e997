//! Numeric behaviour of the model: constructors, radial terms, acceptance
//! rule, diagnostics, and two end-to-end runs.

use fuleren::cluster::Cluster;
use fuleren::engine::{acc_prob, anneal, atom_shift, get_beta, randomize_on_sphere, RunParams};
use fuleren::fx::{Fx, ONE, SCALE};
use fuleren::point::{normalize_angles, SphericalPoint};
use fuleren::potential::{dist, vi, vr, va, R0_FX, S_FX, CA_FX, CR_FX};
use fuleren::rng::rng_from_seed;
use fuleren::series::{cos_full, exp_neg, PI_FX, TWOPI_FX};

fn f(v: Fx) -> f64 {
    v.raw as f64 / SCALE as f64
}

fn fx_of(v: f64) -> Fx {
    Fx::from_raw((v * SCALE as f64).round() as i64)
}

#[test]
fn trigonometry_matches_reference() {
    for &(x, want) in [
        (0.0f64, 1.0f64),
        (0.5, 0.8775825618903728),
        (1.5707963267948966, 0.0),
        (3.0, -0.9899924966004454),
        (6.0, 0.9601702866503661),
    ]
    .iter()
    {
        let c = cos_full(fx_of(x));
        assert!((f(c) - want).abs() < 1e-6, "cos({x}) = {}", f(c));
    }
    for &(x, want) in [(0.0f64, 1.0f64), (1.0, 0.36787944117144233), (5.5, 0.0040867714384640666)]
        .iter()
    {
        let e = exp_neg(fx_of(x));
        assert!((f(e) - want).abs() < 1e-4, "exp(-{x}) = {}", f(e));
    }
}

#[test]
fn spherical_cartesian_round_trip() {
    // P1: from spherical to Cartesian and back recovers (r, phi, theta)
    // within tolerance, for triples already in the normalized ranges; the
    // cases cover all four azimuth quadrants and both poles' neighborhoods.
    let two_pi = 2.0 * std::f64::consts::PI;
    for &(r, phi, theta) in [
        (1.5f64, 1.0f64, 0.7f64),
        (2.5, 2.0, 2.2),
        (2.5, 3.141592653589793, 1.5707963267948966),
        (1.1, 4.0, 2.2),
        (0.9, 0.2, 1.4),
        (3.0, 5.9, 0.4),
        (3.0, 2.9, 2.8),
    ]
    .iter()
    {
        let p = SphericalPoint::from_spherical(fx_of(r), fx_of(phi), fx_of(theta));
        let q = SphericalPoint::from_cartesian(p.x, p.y, p.z);
        assert!((f(q.r) - r).abs() < 1e-4, "r: {} vs {}", f(q.r), r);
        // the recovered azimuth lies in (-pi, pi]; compare modulo one period
        let mut dphi = (f(q.phi) - phi).abs();
        if dphi > std::f64::consts::PI {
            dphi = (dphi - two_pi).abs();
        }
        assert!(dphi < 1e-4, "phi: {} vs {}", f(q.phi), phi);
        assert!((f(q.theta) - theta).abs() < 1e-4, "theta: {} vs {}", f(q.theta), theta);
    }
}

#[test]
fn normalization_is_idempotent() {
    // P2: normalizing an already-normalized angle pair changes nothing.
    let cases = [(-0.5f64, 3.3f64), (6.7, -0.2), (1.0, 1.0), (0.0, 0.0)];
    for &(phi, theta) in cases.iter() {
        let (p1, t1) = normalize_angles(fx_of(phi), fx_of(theta));
        let (p2, t2) = normalize_angles(p1, t1);
        assert_eq!(p1.raw, p2.raw);
        assert_eq!(t1.raw, t2.raw);
        assert!(0 <= p1.raw && p1.raw <= TWOPI_FX);
        assert!(0 <= t1.raw && t1.raw <= PI_FX);
    }
}

#[test]
fn radial_terms_at_equilibrium() {
    // P3: v_r(R0) / v_a(R0) = 1/S exactly, from the closed-form constants:
    // v_a(R0) is exactly the fixed-point product of S and v_r(R0).
    let r0 = Fx::from_raw(R0_FX);
    let vrv = vr(r0).unwrap();
    let vav = va(r0).unwrap();
    assert_eq!(vrv.raw, CR_FX);
    assert_eq!(vav.raw, CA_FX);
    let prod = Fx::from_raw(S_FX).checked_mul(vrv).unwrap();
    assert_eq!(prod.raw, vav.raw);
    assert!((f(vrv) / f(vav) - 1.0 / 1.29).abs() < 1e-8);
    // the values themselves match the closed form De/(S-1) and De S/(S-1)
    assert!((f(vrv) - 6.325 / 0.29).abs() < 1e-6);
    assert!((f(vav) - 6.325 * 1.29 / 0.29).abs() < 1e-6);
}

fn two_atom_cluster(d: f64) -> Cluster {
    let a = SphericalPoint::from_spherical(fx_of(d / 2.0), fx_of(0.0), fx_of(1.5707963267948966));
    let b = SphericalPoint::from_spherical(
        fx_of(d / 2.0),
        fx_of(3.141592653589793),
        fx_of(1.5707963267948966),
    );
    Cluster::from_points(vec![a, b])
}

#[test]
fn two_atom_symmetry_and_energy() {
    // P4: for two atoms the per-atom contributions are equal and the total
    // energy is f_c(r) (v_r(r) - v_a(r)) with bond order exactly one.
    let d = 1.3f64;
    let mut c = two_atom_cluster(d);
    let v0 = vi(&c.atoms, 0).unwrap();
    let v1 = vi(&c.atoms, 1).unwrap();
    assert_eq!(v0.raw, v1.raw);
    let e = c.energy_calc().unwrap();
    assert_eq!(e.raw, v0.raw);
    let r = f(dist(&c.atoms[0], &c.atoms[1]).unwrap());
    assert!((r - d).abs() < 1e-6);
    let lam = 1.5f64;
    let s = 1.29f64;
    let vr_ref = 6.325 / 0.29 * (-(2.0 * s).sqrt() * lam * (r - 1.315)).exp();
    let va_ref = 6.325 * s / 0.29 * (-(2.0 / s).sqrt() * lam * (r - 1.315)).exp();
    assert!((f(e) - (vr_ref - va_ref)).abs() < 2e-2, "E = {}, want {}", f(e), vr_ref - va_ref);
}

#[test]
fn metropolis_certain_acceptance() {
    // P5: the acceptance probability is exactly one whenever the proposed
    // energy does not exceed the current one, for any beta >= 0.
    for &beta in [0.0f64, 0.5, 1.0, 100.0].iter() {
        for &dv in [0.0f64, -0.001, -5.0, -1000.0].iter() {
            let p = acc_prob(fx_of(beta), fx_of(dv));
            assert_eq!(p.raw, ONE);
        }
    }
    // and it falls below one for a positive energy change
    let p = acc_prob(fx_of(2.0), fx_of(0.5));
    assert!(p.raw < ONE);
    assert!((f(p) - (-1.0f64).exp()).abs() < 1e-4);
}

#[test]
fn histogram_weight_and_scaling() {
    // P6: each pair adds 4 mean^2 / (N^2 r dr) to its bin, so the per-pair
    // weight carries the 1/N^2 normalization exactly.
    let d = 1.3f64;
    let c = two_atom_cluster(d);
    let bins = c.pair_correlation_histogram().unwrap();
    let mean = d / 2.0;
    let dr = 2.5 * mean / 100.0;
    let m = (d / dr).floor() as usize;
    let want = 4.0 * mean * mean / (4.0 * d * dr);
    for (k, b) in bins.iter().enumerate() {
        if k == m {
            assert!((f(*b) - want).abs() < 1e-3, "bin {k}: {} vs {want}", f(*b));
        } else {
            assert_eq!(b.raw, 0);
        }
    }
    // doubling N in the normalization quarters the weight: verify the
    // analytic 1/N^2 scaling against a four-atom cluster whose extra pairs
    // fall outside the histogram range
    let far = 100.0f64;
    let mut pts = c.atoms.clone();
    pts.push(SphericalPoint::from_spherical(fx_of(far), fx_of(0.0), fx_of(0.2)));
    pts.push(SphericalPoint::from_spherical(fx_of(far), fx_of(3.0), fx_of(2.9)));
    let c4 = Cluster::from_points(pts);
    let bins4 = c4.pair_correlation_histogram().unwrap();
    let mean4 = (d + 2.0 * far) / 4.0;
    let dr4 = 2.5 * mean4 / 100.0;
    let m4 = (d / dr4).floor() as usize;
    let want4 = 4.0 * mean4 * mean4 / (16.0 * d * dr4);
    assert!((f(bins4[m4]) - want4).abs() < 1e-2, "bin {m4}: {} vs {want4}", f(bins4[m4]));
}

#[test]
fn equilateral_triangle_energy() {
    // P7: three atoms in an equilateral triangle of side d; every angle has
    // cosine 1/2, so the angular correction is the fixed penalty 20 and
    // each ordered pair has ksi = f_c(d) * 20.
    let d = 1.3f64;
    let h = d * 3.0f64.sqrt() / 2.0;
    let pts = vec![
        SphericalPoint::from_cartesian(fx_of(0.0), fx_of(0.0), fx_of(0.0)),
        SphericalPoint::from_cartesian(fx_of(d), fx_of(0.0), fx_of(0.0)),
        SphericalPoint::from_cartesian(fx_of(d / 2.0), fx_of(h), fx_of(0.0)),
    ];
    let mut c = Cluster::from_points(pts);
    let e = c.energy_calc().unwrap();
    let lam = 1.5f64;
    let s = 1.29f64;
    let vr_ref = 6.325 / 0.29 * (-(2.0 * s).sqrt() * lam * (d - 1.315)).exp();
    let va_ref = 6.325 * s / 0.29 * (-(2.0 / s).sqrt() * lam * (d - 1.315)).exp();
    let b = (1.0f64 + 20.0).powf(-0.80469);
    let want = 3.0 * (vr_ref - b * va_ref);
    assert!((f(e) - want).abs() < 2e-2, "E = {}, want {}", f(e), want);
}

#[test]
fn isothermal_run_converges_to_equilibrium() {
    // P8: an isothermal run (beta_min = beta_max) on two atoms drives the
    // pair distance toward the equilibrium R0.
    let mut c = Cluster::new(2);
    let mut rng = rng_from_seed(7);
    randomize_on_sphere(&mut c, fx_of(0.9), &mut rng);
    let params = RunParams {
        beta_min: fx_of(60.0),
        beta_max: fx_of(60.0),
        p: fx_of(2.0),
        it_max: 12000,
        save_step: 1000,
    };
    let (es, rs) = anneal(&mut c, &params, &mut rng).unwrap();
    assert_eq!(es.len(), rs.len());
    let dfin = f(dist(&c.atoms[0], &c.atoms[1]).unwrap());
    assert!((dfin - 1.315).abs() < 0.15, "final distance {dfin}");
}

#[test]
fn annealing_schedule_endpoints() {
    let params = RunParams {
        beta_min: fx_of(1.0),
        beta_max: fx_of(100.0),
        p: fx_of(2.0),
        it_max: 1000,
        save_step: 100,
    };
    let b0 = get_beta(0, &params).unwrap();
    assert_eq!(b0.raw, fx_of(1.0).raw);
    let bh = get_beta(500, &params).unwrap();
    assert!((f(bh) - (1.0 + 0.25 * 99.0)).abs() < 1e-3, "beta(500) = {}", f(bh));
    let bl = get_beta(999, &params).unwrap();
    assert!((f(bl) - (1.0 + 0.998001 * 99.0)).abs() < 1e-2);
}

#[test]
fn local_move_accepts_or_reverts() {
    let mut c = two_atom_cluster(1.3);
    let before = (c.atoms[0], c.atoms[1]);
    // a rejecting draw: u4 = 1 can only accept when the probability is one
    let one = Fx::from_raw(ONE);
    let half = Fx::from_raw(ONE / 2);
    let acc = atom_shift(&mut c, 0, fx_of(1000.0), one, half, half, one).unwrap();
    if !acc {
        let d0 = dist(&before.0, &before.1).unwrap();
        let d1 = dist(&c.atoms[0], &c.atoms[1]).unwrap();
        assert!((f(d0) - f(d1)).abs() < 1e-6);
    }
    assert_eq!(c.atoms[1].r.raw, before.1.r.raw);
}

#[test]
fn energy_of_distant_pair_is_zero() {
    let mut c = two_atom_cluster(5.0);
    let e = c.energy_calc().unwrap();
    assert_eq!(e.raw, 0);
    let m = c.mean_r().unwrap();
    assert!((f(m) - 2.5).abs() < 1e-6);
}
