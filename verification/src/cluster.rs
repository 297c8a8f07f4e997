//! The cluster: a fixed-size ordered set of points, a cached total energy,
//! and the diagnostics (mean radius and radial pair-correlation histogram).

use vstd::prelude::*;
use crate::fx::{
    Fx, SCALE, ONE, RAW_MAX, in_range, iabs, tzdiv, mul_raw, div_raw, chk, lift, owf, oadd, osub,
    omul, odiv, ck_add, ck_mul, ck_div,
};
use crate::fx;
use crate::point::SphericalPoint;
use crate::potential::{wf_all, dist_raw, dist, energy_raw, energy};

verus! {

/// Number of histogram bins.
pub const PCF_BINS: usize = 100;

/// The histogram spans 2.5 mean radii.
pub const HIST_SPAN_FX: i64 = 10737418240;

/// Fixed-point four (the numerator factor of the histogram weight).
pub const FOUR_FX: i64 = 17179869184;

/// A cluster of atoms with a cached total energy.  The energy field is a
/// derived value: it is only guaranteed fresh immediately after an explicit
/// `energy_calc`.
pub struct Cluster {
    pub atoms: Vec<SphericalPoint>,
    pub energy: Fx,
}

/// Sum of the radii of the first `n` atoms.
pub open spec fn rsum_upto(atoms: Seq<SphericalPoint>, n: int) -> Option<int>
    decreases n,
{
    if n <= 0 {
        Some(0)
    } else {
        oadd(rsum_upto(atoms, n - 1), Some(atoms[n - 1].r.raw as int))
    }
}

/// Arithmetic mean of the radii (`None` for an empty cluster).
pub open spec fn mean_r_raw(atoms: Seq<SphericalPoint>) -> Option<int> {
    match chk(atoms.len() * (SCALE as int)) {
        None => None,
        Some(nf) => odiv(rsum_upto(atoms, atoms.len() as int), Some(nf)),
    }
}

/// Weight one pair at distance `r` adds to its bin:
/// `2 * 4 pi mean^2 / (N^2 2 pi r dr)`, written with the pi factors
/// cancelled as `4 mean^2 / (N^2 r dr)`.
pub open spec fn pcf_weight_raw(n: int, mean: int, r: int, dr: int) -> Option<int> {
    let num = omul(Some(FOUR_FX as int), omul(Some(mean), Some(mean)));
    let den = omul(omul(chk(n * n * (SCALE as int)), Some(r)), Some(dr));
    odiv(num, den)
}

/// One pair's effect on the histogram: pairs beyond the last bin are
/// silently dropped.
pub open spec fn pcf_step_raw(
    bins: Option<Seq<int>>,
    atoms: Seq<SphericalPoint>,
    i: int,
    j: int,
    mean: int,
    dr: int,
) -> Option<Seq<int>> {
    match bins {
        None => None,
        Some(bs) => match dist_raw(atoms[i], atoms[j]) {
            None => None,
            Some(r) => if dr <= 0 {
                None
            } else {
                let m = r / dr;
                if m < PCF_BINS as int {
                    match pcf_weight_raw(atoms.len() as int, mean, r, dr) {
                        None => None,
                        Some(w) => match chk(bs[m] + w) {
                            None => None,
                            Some(v) => Some(bs.update(m, v)),
                        },
                    }
                } else {
                    Some(bs)
                }
            },
        },
    }
}

/// Histogram after the pairs `(i, i+1) .. (i, j-1)`.
pub open spec fn pcf_row_raw(
    bins: Option<Seq<int>>,
    atoms: Seq<SphericalPoint>,
    i: int,
    j: int,
    mean: int,
    dr: int,
) -> Option<Seq<int>>
    decreases j - i,
{
    if j <= i + 1 {
        bins
    } else {
        pcf_step_raw(pcf_row_raw(bins, atoms, i, j - 1, mean, dr), atoms, i, j - 1, mean, dr)
    }
}

/// Once a step has failed, every later histogram state is failed too.
proof fn lemma_pcf_row_of_none(atoms: Seq<SphericalPoint>, i: int, j: int, mean: int, dr: int)
    ensures
        pcf_row_raw(None, atoms, i, j, mean, dr) is None,
    decreases j - i,
{
    if j > i + 1 {
        lemma_pcf_row_of_none(atoms, i, j - 1, mean, dr);
    }
}

proof fn lemma_pcf_row_none_mono(
    bins: Option<Seq<int>>,
    atoms: Seq<SphericalPoint>,
    i: int,
    j: int,
    l: int,
    mean: int,
    dr: int,
)
    requires
        pcf_row_raw(bins, atoms, i, j, mean, dr) is None,
        j <= l,
    ensures
        pcf_row_raw(bins, atoms, i, l, mean, dr) is None,
    decreases l - j,
{
    if l > j {
        if l <= i + 1 {
            // then j <= i + 1 as well, and both equal `bins`
        } else {
            lemma_pcf_row_none_mono(bins, atoms, i, j, l - 1, mean, dr);
        }
    }
}

proof fn lemma_pcf_rows_none_mono(
    bins: Option<Seq<int>>,
    atoms: Seq<SphericalPoint>,
    i: int,
    l: int,
    mean: int,
    dr: int,
)
    requires
        pcf_rows_raw(bins, atoms, i, mean, dr) is None,
        i <= l,
    ensures
        pcf_rows_raw(bins, atoms, l, mean, dr) is None,
    decreases l - i,
{
    if l > i {
        lemma_pcf_rows_none_mono(bins, atoms, i, l - 1, mean, dr);
        lemma_pcf_row_of_none(atoms, l - 1, atoms.len() as int, mean, dr);
    }
}

/// Histogram after all pairs whose first index is below `i`.
pub open spec fn pcf_rows_raw(
    bins: Option<Seq<int>>,
    atoms: Seq<SphericalPoint>,
    i: int,
    mean: int,
    dr: int,
) -> Option<Seq<int>>
    decreases i,
{
    if i <= 0 {
        bins
    } else {
        pcf_row_raw(
            pcf_rows_raw(bins, atoms, i - 1, mean, dr),
            atoms,
            i - 1,
            atoms.len() as int,
            mean,
            dr,
        )
    }
}

/// The full pair-correlation histogram.
pub open spec fn pcf_raw(atoms: Seq<SphericalPoint>) -> Option<Seq<int>> {
    match mean_r_raw(atoms) {
        None => None,
        Some(mean) => {
            let dr = tzdiv(mul_raw(HIST_SPAN_FX as int, mean), PCF_BINS as int);
            pcf_rows_raw(
                Some(Seq::new(PCF_BINS as nat, |b: int| 0int)),
                atoms,
                atoms.len() as int,
                mean,
                dr,
            )
        },
    }
}

/// Raw values of a vector of fixed-point numbers.
pub open spec fn lift_seq(s: Seq<Fx>) -> Seq<int> {
    s.map(|b: int, f: Fx| f.raw as int)
}

impl Cluster {
    pub open spec fn wf(self) -> bool {
        wf_all(self.atoms@) && self.energy.wf()
    }

    /// A cluster of `size` atoms, all at the origin, with zero energy.
    pub fn new(size: usize) -> (c: Cluster)
        ensures
            c.wf(),
            c.atoms@.len() == size,
            c.energy.raw == 0,
            forall|k: int|
                0 <= k < size ==> c.atoms@[k].r.raw == 0 && c.atoms@[k].x.raw == 0
                    && c.atoms@[k].y.raw == 0 && c.atoms@[k].z.raw == 0 && c.atoms@[k].phi.raw == 0
                    && c.atoms@[k].theta.raw == 0,
    {
        let mut atoms: Vec<SphericalPoint> = Vec::new();
        let mut k: usize = 0;
        while k < size
            invariant
                k <= size,
                atoms@.len() == k,
                forall|m: int|
                    0 <= m < k ==> atoms@[m].wf() && atoms@[m].r.raw == 0 && atoms@[m].x.raw == 0
                        && atoms@[m].y.raw == 0 && atoms@[m].z.raw == 0 && atoms@[m].phi.raw == 0
                        && atoms@[m].theta.raw == 0,
            decreases size - k,
        {
            atoms.push(SphericalPoint::origin());
            k += 1;
        }
        Cluster { atoms, energy: Fx { raw: 0 } }
    }

    /// A cluster from externally supplied points.
    pub fn from_points(atoms: Vec<SphericalPoint>) -> (c: Cluster)
        requires
            wf_all(atoms@),
        ensures
            c.wf(),
            c.atoms@ == atoms@,
            c.energy.raw == 0,
    {
        Cluster { atoms, energy: Fx { raw: 0 } }
    }

    /// Number of atoms.
    pub fn size(&self) -> (n: usize)
        ensures
            n == self.atoms@.len(),
    {
        self.atoms.len()
    }

    /// Recompute the total energy and refresh the cache; the cache is left
    /// unchanged when the computation leaves the representable range.
    pub fn energy_calc(&mut self) -> (res: Option<Fx>)
        requires
            old(self).wf(),
        ensures
            final(self).wf(),
            final(self).atoms@ == old(self).atoms@,
            lift(res) == energy_raw(old(self).atoms@),
            res matches Some(e) ==> final(self).energy == e,
            res is None ==> final(self).energy == old(self).energy,
    {
        let e = energy(&self.atoms);
        match e {
            Some(v) => {
                self.energy = v;
                Some(v)
            },
            None => None,
        }
    }

    /// Arithmetic mean of the atoms' radii.
    pub fn mean_r(&self) -> (res: Option<Fx>)
        requires
            self.wf(),
        ensures
            lift(res) == mean_r_raw(self.atoms@),
            owf(res),
    {
        let n = self.atoms.len();
        let mut acc: Option<Fx> = Some(Fx::zero());
        let mut k: usize = 0;
        while k < n
            invariant
                self.wf(),
                n == self.atoms@.len(),
                k <= n,
                owf(acc),
                lift(acc) == rsum_upto(self.atoms@, k as int),
            decreases n - k,
        {
            acc = ck_add(acc, Some(self.atoms[k].r));
            k += 1;
        }
        if n > 1073741824 {
            proof {
                assert((n as int) * (SCALE as int) > RAW_MAX as int) by (nonlinear_arith)
                    requires
                        n as int > 1073741824int,
            ;
            }
            None
        } else {
            proof {
                assert((n as int) * (SCALE as int) <= (RAW_MAX as int)) by (nonlinear_arith)
                    requires
                        0 <= n as int <= 1073741824int,
                ;
            }
            let nf = Fx { raw: (n as i64) * SCALE };
            ck_div(acc, Some(nf))
        }
    }

    /// Radial pair-correlation histogram with `PCF_BINS` bins of width
    /// `2.5 * mean_r / PCF_BINS`; each unordered pair adds
    /// `4 mean^2 / (N^2 r dr)` to its bin, and pairs beyond the range are
    /// silently dropped.
    #[verifier::rlimit(100)]
    pub fn pair_correlation_histogram(&self) -> (res: Option<Vec<Fx>>)
        requires
            self.wf(),
        ensures
            match res {
                Some(v) => v@.len() == PCF_BINS && pcf_raw(self.atoms@) == Some(lift_seq(v@))
                    && wf_all_fx(v@),
                None => pcf_raw(self.atoms@) is None,
            },
    {
        let n = self.atoms.len();
        let mean_opt = self.mean_r();
        let mean = match mean_opt {
            None => {
                return None;
            },
            Some(m) => m,
        };
        let rm128 = fx::mul_core(HIST_SPAN_FX, mean.raw);
        proof {
            vstd::arithmetic::div_mod::lemma_fundamental_div_mod_converse(
                49517601571415210995964968960int,
                SCALE as int,
                11529215046068469760int,
                0,
            );
            fx::lemma_mul_raw_bound(
                HIST_SPAN_FX as int,
                mean.raw as int,
                HIST_SPAN_FX as int,
                RAW_MAX as int,
            );
        }
        let rmag: u128 = if rm128 < 0 {
            (-rm128) as u128
        } else {
            rm128 as u128
        };
        let drm = rmag / (PCF_BINS as u128);
        proof {
            vstd::arithmetic::div_mod::lemma_div_nonincreasing(rmag as int, PCF_BINS as int);
        }
        let dr: i64 = if rm128 < 0 {
            -(drm as i64)
        } else {
            drm as i64
        };
        proof {
            assert(iabs(rm128 as int) <= 11529215046068469760int);
            assert(in_range(dr as int));
        }
        let ghost at = self.atoms@;
        let ghost mi = mean.raw as int;
        let ghost dri = dr as int;
        let ghost init: Option<Seq<int>> = Some(Seq::new(PCF_BINS as nat, |q: int| 0int));
        proof {
            assert(dri == tzdiv(mul_raw(HIST_SPAN_FX as int, mi), PCF_BINS as int));
        }
        let mut bins: Vec<Fx> = Vec::new();
        let mut b: usize = 0;
        while b < PCF_BINS
            invariant
                b <= PCF_BINS,
                bins@.len() == b,
                forall|m: int| 0 <= m < b ==> bins@[m].raw == 0,
            decreases PCF_BINS - b,
        {
            bins.push(Fx { raw: 0 });
            b += 1;
        }
        proof {
            assert(lift_seq(bins@) =~= Seq::new(PCF_BINS as nat, |q: int| 0int));
        }
        let mut i: usize = 0;
        while i < n
            invariant
                self.wf(),
                n == self.atoms@.len(),
                at == self.atoms@,
                mean.wf(),
                mi == mean.raw as int,
                dri == dr as int,
                in_range(dr as int),
                Some(mi) == mean_r_raw(at),
                dri == tzdiv(mul_raw(HIST_SPAN_FX as int, mi), PCF_BINS as int),
                init == Some(Seq::new(PCF_BINS as nat, |q: int| 0int)),
                i <= n,
                bins@.len() == PCF_BINS,
                forall|m: int| 0 <= m < PCF_BINS ==> (#[trigger] bins@[m]).wf(),
                Some(lift_seq(bins@)) == pcf_rows_raw(init, at, i as int, mi, dri),
            decreases n - i,
        {
            let ghost rows_i = pcf_rows_raw(init, at, i as int, mi, dri);
            let mut j: usize = i + 1;
            while j < n
                invariant
                    self.wf(),
                    n == self.atoms@.len(),
                    at == self.atoms@,
                    mean.wf(),
                    mi == mean.raw as int,
                    dri == dr as int,
                    in_range(dr as int),
                    Some(mi) == mean_r_raw(at),
                    dri == tzdiv(mul_raw(HIST_SPAN_FX as int, mi), PCF_BINS as int),
                    init == Some(Seq::new(PCF_BINS as nat, |q: int| 0int)),
                    rows_i == pcf_rows_raw(init, at, i as int, mi, dri),
                    i < n,
                    i + 1 <= j <= n,
                    bins@.len() == PCF_BINS,
                    forall|m: int| 0 <= m < PCF_BINS ==> (#[trigger] bins@[m]).wf(),
                    Some(lift_seq(bins@)) == pcf_row_raw(rows_i, at, i as int, j as int, mi, dri),
                decreases n - j,
            {
                let ghost cur_bins = lift_seq(bins@);
                let d = dist(&self.atoms[i], &self.atoms[j]);
                let r = match d {
                    None => {
                        proof {
                            pcf_none_exit(at, init, i as int, j as int, n as int, mi, dri, cur_bins);
                        }
                        return None;
                    },
                    Some(r) => r,
                };
                if dr <= 0 {
                    proof {
                        pcf_none_exit(at, init, i as int, j as int, n as int, mi, dri, cur_bins);
                    }
                    return None;
                }
                let q = fx::mag(r.raw) / (dr as u64);
                let num = ck_mul(Some(Fx { raw: FOUR_FX }), ck_mul(Some(mean), Some(mean)));
                let nsq: Option<Fx> = if n > 1073741824 {
                    proof {
                        assert((n as int) * (n as int) * (SCALE as int) > RAW_MAX as int)
                            by (nonlinear_arith)
                            requires
                                n as int > 1073741824int,
                        ;
                    }
                    None
                } else {
                    proof {
                        assert(0 <= (n as int) * (n as int) * (SCALE as int) <= 1073741824int
                            * 1073741824int * (SCALE as int)) by (nonlinear_arith)
                            requires
                                0 <= n as int <= 1073741824int,
                        ;
                    }
                    let nn = (n as u128) * (n as u128) * (SCALE as u128);
                    if nn > RAW_MAX as u128 {
                        None
                    } else {
                        Some(Fx { raw: nn as i64 })
                    }
                };
                let den = ck_mul(ck_mul(nsq, Some(r)), Some(Fx { raw: dr }));
                let w = ck_div(num, den);
                if q < PCF_BINS as u64 {
                    let m = q as usize;
                    match w {
                        None => {
                            proof {
                                pcf_none_exit(
                                    at,
                                    init,
                                    i as int,
                                    j as int,
                                    n as int,
                                    mi,
                                    dri,
                                    cur_bins,
                                );
                            }
                            return None;
                        },
                        Some(wv) => {
                            let cur = bins[m];
                            let ghost prev = bins@;
                            match cur.checked_add(wv) {
                                None => {
                                    proof {
                                        pcf_none_exit(
                                            at,
                                            init,
                                            i as int,
                                            j as int,
                                            n as int,
                                            mi,
                                            dri,
                                            cur_bins,
                                        );
                                    }
                                    return None;
                                },
                                Some(nv) => {
                                    bins.set(m, nv);
                                    proof {
                                        assert(lift_seq(bins@) =~= lift_seq(prev).update(
                                            m as int,
                                            nv.raw as int,
                                        ));
                                        assert(pcf_row_raw(
                                            rows_i,
                                            at,
                                            i as int,
                                            j as int + 1,
                                            mi,
                                            dri,
                                        ) == pcf_step_raw(
                                            Some(lift_seq(prev)),
                                            at,
                                            i as int,
                                            j as int,
                                            mi,
                                            dri,
                                        ));
                                    }
                                },
                            }
                        },
                    }
                } else {
                    proof {
                        assert(pcf_row_raw(rows_i, at, i as int, j as int + 1, mi, dri)
                            == pcf_step_raw(Some(cur_bins), at, i as int, j as int, mi, dri));
                    }
                }
                j += 1;
            }
            i += 1;
            proof {
                assert(pcf_rows_raw(init, at, i as int, mi, dri) == pcf_row_raw(
                    rows_i,
                    at,
                    i as int - 1,
                    n as int,
                    mi,
                    dri,
                ));
            }
        }
        Some(bins)
    }
}

/// At a failing pair every later histogram state fails, so the whole
/// histogram is `None` (proof helper for the executable early exits).
proof fn pcf_none_exit(
    at: Seq<SphericalPoint>,
    init: Option<Seq<int>>,
    i: int,
    j: int,
    n: int,
    mi: int,
    dri: int,
    cur: Seq<int>,
)
    requires
        n == at.len(),
        0 <= i < n,
        i + 1 <= j < n,
        Some(cur) == pcf_row_raw(pcf_rows_raw(init, at, i, mi, dri), at, i, j, mi, dri),
        pcf_step_raw(Some(cur), at, i, j, mi, dri) is None,
    ensures
        pcf_rows_raw(init, at, n, mi, dri) is None,
{
    let rows_i = pcf_rows_raw(init, at, i, mi, dri);
    assert(pcf_row_raw(rows_i, at, i, j + 1, mi, dri) is None);
    lemma_pcf_row_none_mono(rows_i, at, i, j + 1, n, mi, dri);
    assert(pcf_rows_raw(init, at, i + 1, mi, dri) is None);
    lemma_pcf_rows_none_mono(init, at, i + 1, n, mi, dri);
}

/// All entries of a fixed-point vector are in range.
pub open spec fn wf_all_fx(s: Seq<Fx>) -> bool {
    forall|k: int| 0 <= k < s.len() ==> (#[trigger] s[k]).wf()
}

} // verus!
