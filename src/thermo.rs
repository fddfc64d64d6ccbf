//! Observables gathered along a Monte Carlo chain: acceptance counts, the
//! box-area series and a short-range histogram of pair distances.

use vstd::prelude::*;

use crate::disks::Disk;
use crate::geometry::{dist_sq_periodic, distance_sq_periodic, Box};
use crate::state::State;

verus! {

/// Number of histogram bins over `[2 r, 2.1 r)`.
pub const N_BINS: usize = 50;

/// Pair distance `sqrt(d2)` lies in bin `n` of width `r / 500` starting at
/// `2 r`: `2 r + n r / 500 <= sqrt(d2) < 2 r + (n + 1) r / 500`, squared.
pub open spec fn in_bin(d2: int, r: int, n: int) -> bool {
    &&& (1000 + n) * (1000 + n) * (r * r) <= 250000 * d2
    &&& 250000 * d2 < (1001 + n) * (1001 + n) * (r * r)
}

/// The disks `j != i` whose distance to disk `i` falls in bin `n`.
pub open spec fn bin_partners(ds: Seq<Disk>, b: Box, i: int, n: int) -> Set<usize> {
    Set::new(
        |j: usize|
            j < ds.len() && j != i && pair_in_bin(ds, b, i, j as int, n),
    )
}

/// Ordered pairs `(i, j)` with `i < k` whose distance falls in bin `n`.
pub open spec fn pair_count(ds: Seq<Disk>, b: Box, n: int, k: int) -> int
    decreases k,
{
    if k <= 0 {
        0
    } else {
        pair_count(ds, b, n, k - 1) + bin_partners(ds, b, k - 1, n).len()
    }
}

/// `x`, or `u64::MAX` when `x` exceeds it.
pub open spec fn saturated(x: int) -> int {
    if x > u64::MAX {
        u64::MAX as int
    } else {
        x
    }
}

/// Distance from disk `i` to disk `j` falls in bin `n`.
pub open spec fn pair_in_bin(ds: Seq<Disk>, b: Box, i: int, j: int, n: int) -> bool {
    in_bin(dist_sq_periodic(ds[i].position, ds[j].position, b), ds[0].radius as int, n)
}

/// Histogram of pair distances over the first peak of g(r).
pub struct GofRlowR {
    /// Raw counts, one per bin.
    pub g: Vec<u64>,
    /// Number of configurations added.
    pub counter: u64,
    /// Disk radius the bins were laid out for.
    pub radius: i64,
}

/// Counters and series of one sampling run.
pub struct Thermo {
    /// Trial index of each area sample.
    pub step: Vec<u64>,
    /// Box area at each sample, in squared quanta.
    pub area: Vec<u64>,
    pub nvt_trials: u64,
    pub nvt_accepted: u64,
    pub npt_trials: u64,
    pub npt_accepted: u64,
    pub g_of_r: GofRlowR,
}

impl Thermo {
    pub fn empty_thermo() -> (t: Thermo)
        ensures
            t.step@.len() == 0,
            t.area@.len() == 0,
            t.nvt_trials == 0,
            t.nvt_accepted == 0,
            t.npt_trials == 0,
            t.npt_accepted == 0,
            t.g_of_r.g@.len() == 0,
            t.g_of_r.counter == 0,
    {
        Thermo {
            step: Vec::new(),
            area: Vec::new(),
            nvt_trials: 0,
            nvt_accepted: 0,
            npt_trials: 0,
            npt_accepted: 0,
            g_of_r: GofRlowR::empty_g_of_r(),
        }
    }
}

/// Sweeps between two area samples of an isobaric run.
pub const SWEEPS_BETWEEN_AREA_SAMPLES: u32 = 100;

impl Thermo {
    /// Books one sweep `sweep_id` of an isobaric run over `nb_disks` disks:
    /// adds the sweep's displacement counts `nvt` and one volume trial, kept
    /// or not, and on every hundredth sweep records the trial index
    /// `sweep_id * nb_disks` and the box area of `state`. Counts stop at
    /// `u64::MAX`.
    pub fn record_npt_sweep(
        &mut self,
        sweep_id: u32,
        nb_disks: u32,
        nvt: &Thermo,
        volume_accepted: bool,
        state: &State,
    )
        requires
            crate::geometry::box_ok(state.box_view()),
        ensures
            final(self).nvt_trials == saturated(old(self).nvt_trials + nvt.nvt_trials),
            final(self).nvt_accepted == saturated(old(self).nvt_accepted + nvt.nvt_accepted),
            final(self).npt_trials == saturated(old(self).npt_trials + 1),
            final(self).npt_accepted == saturated(
                old(self).npt_accepted + if volume_accepted {
                    1int
                } else {
                    0int
                },
            ),
            sweep_id % SWEEPS_BETWEEN_AREA_SAMPLES == 0 ==> {
                &&& final(self).step@ == old(self).step@.push((sweep_id * nb_disks) as u64)
                &&& final(self).area@ == old(self).area@.push(
                    (state.box_view().lx * state.box_view().ly) as u64,
                )
            },
            sweep_id % SWEEPS_BETWEEN_AREA_SAMPLES != 0 ==> final(self).step@ == old(self).step@
                && final(self).area@ == old(self).area@,
            final(self).g_of_r.g@ == old(self).g_of_r.g@,
            final(self).g_of_r.counter == old(self).g_of_r.counter,
            final(self).g_of_r.radius == old(self).g_of_r.radius,
    {
        self.nvt_trials = self.nvt_trials.saturating_add(nvt.nvt_trials);
        self.nvt_accepted = self.nvt_accepted.saturating_add(nvt.nvt_accepted);
        self.npt_trials = self.npt_trials.saturating_add(1);
        if volume_accepted {
            self.npt_accepted = self.npt_accepted.saturating_add(1);
        }
        if sweep_id % SWEEPS_BETWEEN_AREA_SAMPLES == 0 {
            let sim_box = state.sim_box();
            assert(sweep_id * nb_disks <= u32::MAX * u32::MAX) by (nonlinear_arith)
                requires
                    sweep_id <= u32::MAX,
                    nb_disks <= u32::MAX,
            ;
            assert(0 < sim_box.lx * sim_box.ly <= crate::MAX_SIDE * crate::MAX_SIDE)
                by (nonlinear_arith)
                requires
                    1 <= sim_box.lx <= crate::MAX_SIDE,
                    1 <= sim_box.ly <= crate::MAX_SIDE,
            ;
            self.step.push((sweep_id as u64) * (nb_disks as u64));
            self.area.push((sim_box.lx * sim_box.ly) as u64);
        }
    }
}

/// The bin of a squared distance, if it falls in one.
fn bin_of(d2: u64, radius: i64) -> (r: Option<usize>)
    requires
        1 <= radius <= crate::MAX_SIDE,
    ensures
        r matches Some(n) ==> n < N_BINS && in_bin(d2 as int, radius as int, n as int),
        r is None ==> forall|n: int|
            0 <= n < N_BINS ==> !#[trigger] in_bin(d2 as int, radius as int, n),
{
    assert(radius * radius <= 268435456 * 268435456) by (nonlinear_arith)
        requires
            1 <= radius <= 268435456,
    ;
    let r2: u128 = (radius as u128) * (radius as u128);
    let scaled: u128 = 250000 * (d2 as u128);
    let mut n: usize = 0;
    while n < N_BINS
        invariant
            0 <= n <= N_BINS,
            r2 == radius * radius,
            r2 <= 268435456 * 268435456,
            scaled == 250000 * d2,
            forall|m: int| 0 <= m < n ==> !#[trigger] in_bin(d2 as int, radius as int, m),
        decreases N_BINS - n,
    {
        let a: u128 = (1000 + n) as u128;
        let b: u128 = (1001 + n) as u128;
        assert(b * b <= 1051 * 1051 && a * a <= b * b) by (nonlinear_arith)
            requires
                a == 1000 + n,
                b == 1001 + n,
                n < 50,
        ;
        let lo: u128 = a * a;
        let hi: u128 = b * b;
        assert(hi * r2 <= 1051 * 1051 * (268435456 * 268435456)) by (nonlinear_arith)
            requires
                hi == (1001 + n) * (1001 + n),
                n < 50,
                r2 <= 268435456 * 268435456,
        ;
        assert(lo * r2 <= hi * r2) by (nonlinear_arith)
            requires
                lo == (1000 + n) * (1000 + n),
                hi == (1001 + n) * (1001 + n),
                r2 >= 0,
        ;
        if lo * r2 <= scaled && scaled < hi * r2 {
            return Some(n);
        }
        n = n + 1;
    }
    None
}

/// A squared distance lies in at most one bin.
proof fn lemma_bins_disjoint(d2: int, r: int, n: int, m: int)
    requires
        0 <= n < m,
        in_bin(d2, r, n),
    ensures
        !in_bin(d2, r, m),
{
    assert((1001 + n) * (1001 + n) * (r * r) <= (1000 + m) * (1000 + m) * (r * r))
        by (nonlinear_arith)
        requires
            0 <= n < m,
    ;
}

impl GofRlowR {
    pub fn empty_g_of_r() -> (h: GofRlowR)
        ensures
            h.g@.len() == 0,
            h.counter == 0,
            h.radius == 0,
    {
        GofRlowR { g: Vec::new(), counter: 0, radius: 0 }
    }

    /// Lays out the bins for disks of radius `radius` and clears the counts.
    pub fn initialize_vectors(&mut self, radius: i64)
        ensures
            final(self).g@ == Seq::new(N_BINS as nat, |n: int| 0u64),
            final(self).counter == 0,
            final(self).radius == radius,
    {
        let mut g: Vec<u64> = Vec::new();
        for n in 0..N_BINS
            invariant
                g@ == Seq::new(n as nat, |m: int| 0u64),
        {
            g.push(0);
            assert(g@ =~= Seq::new((n + 1) as nat, |m: int| 0u64));
        }
        self.g = g;
        self.counter = 0;
        self.radius = radius;
    }

    /// Adds one configuration: every ordered pair of distinct disks whose
    /// distance falls in a bin counts once in that bin. Pairs are found
    /// through the cell list. Counts stop at `u64::MAX`.
    pub fn update(&mut self, state: &State)
        requires
            state.inv(),
            old(self).g@.len() == N_BINS,
            old(self).radius == state.radius(),
        ensures
            final(self).g@.len() == N_BINS,
            final(self).radius == old(self).radius,
            final(self).counter == saturated(old(self).counter + 1),
            forall|n: int|
                0 <= n < N_BINS ==> #[trigger] final(self).g@[n] == saturated(
                    old(self).g@[n] + pair_count(
                        state.disks_view(),
                        state.box_view(),
                        n,
                        state.disks_view().len() as int,
                    ),
                ),
    {
        let disks = state.disks();
        let sim_box = state.sim_box();
        let ghost ds = disks@;
        let ghost g0 = self.g@;
        let n: usize = disks.len();
        let radius: i64 = disks[0].radius;
        proof {
            crate::geometry::lemma_in_box_disk_ok(ds, sim_box);
        }
        for i in 0..n
            invariant
                state.inv(),
                ds == state.disks_view(),
                disks@ == ds,
                sim_box == state.box_view(),
                n == ds.len(),
                radius == ds[0].radius,
                self.radius == old(self).radius,
                self.counter == old(self).counter,
                g0 == old(self).g@,
                self.g@.len() == N_BINS,
                forall|k: int| 0 <= k < ds.len() ==> crate::disks::disk_ok(#[trigger] ds[k]),
                forall|b: int|
                    0 <= b < N_BINS ==> #[trigger] self.g@[b] == saturated(
                        g0[b] + pair_count(ds, sim_box, b, i as int),
                    ),
        {
            let neighbors = state.get_neighbor_disks(i);
            let ghost start = self.g@;
            let ghost mut sets: Seq<Set<usize>> = Seq::new(N_BINS as nat, |b: int| Set::empty());
            let mut t: usize = 0;
            while t < neighbors.len()
                invariant
                    state.inv(),
                    ds == state.disks_view(),
                    disks@ == ds,
                    sim_box == state.box_view(),
                    n == ds.len(),
                    i < n,
                    radius == ds[0].radius,
                    self.radius == old(self).radius,
                    self.counter == old(self).counter,
                    self.g@.len() == N_BINS,
                    start.len() == N_BINS,
                    forall|k: int| 0 <= k < ds.len() ==> crate::disks::disk_ok(#[trigger] ds[k]),
                    neighbors@.no_duplicates(),
                    forall|j: usize| #[trigger]
                        neighbors@.contains(j) <==> state.neighbor_disk(i as int, j as int),
                    0 <= t <= neighbors@.len(),
                    sets.len() == N_BINS,
                    forall|b: int| 0 <= b < N_BINS ==> (#[trigger] sets[b]).finite(),
                    forall|b: int, x: usize|
                        0 <= b < N_BINS ==> (#[trigger] sets[b].contains(x) <==> (
                        neighbors@.take(t as int).contains(x) && pair_in_bin(
                            ds,
                            sim_box,
                            i as int,
                            x as int,
                            b,
                        ))),
                    forall|b: int|
                        0 <= b < N_BINS ==> #[trigger] self.g@[b] == saturated(
                            start[b] + sets[b].len(),
                        ),
                decreases neighbors@.len() - t,
            {
                let j: usize = neighbors[t];
                proof {
                    assert(neighbors@.contains(j));
                }
                let d2: u64 = distance_sq_periodic(&disks[i].position, &disks[j].position, &sim_box);
                let bin = bin_of(d2, radius);
                let ghost before_g = self.g@;
                let ghost before_sets = sets;
                proof {
                    assert(!neighbors@.take(t as int).contains(j)) by {
                        if neighbors@.take(t as int).contains(j) {
                            let k = choose|k: int|
                                0 <= k < t && #[trigger] neighbors@.take(t as int)[k] == j;
                            assert(neighbors@[k] == neighbors@[t as int]);
                        }
                    }
                    assert(neighbors@.take(t + 1) =~= neighbors@.take(t as int).push(j));
                }
                match bin {
                    Some(bb) => {
                        let v: u64 = self.g[bb];
                        if v < u64::MAX {
                            self.g.set(bb, v + 1);
                        }
                        proof {
                            sets = sets.update(bb as int, sets[bb as int].insert(j));
                            assert forall|b: int| 0 <= b < N_BINS && b != bb implies !pair_in_bin(
                                ds,
                                sim_box,
                                i as int,
                                j as int,
                                b,
                            ) by {
                                let d = dist_sq_periodic(ds[i as int].position, ds[j as int].position, sim_box);
                                if b < bb {
                                    if in_bin(d, radius as int, b) {
                                        lemma_bins_disjoint(d, radius as int, b, bb as int);
                                    }
                                } else {
                                    lemma_bins_disjoint(d, radius as int, bb as int, b);
                                }
                            }
                            assert(!before_sets[bb as int].contains(j));
                        }
                    },
                    None => {},
                }
                proof {
                    assert forall|b: int, x: usize|
                        0 <= b < N_BINS implies (#[trigger] sets[b].contains(x) <==> (
                        neighbors@.take(t + 1).contains(x) && pair_in_bin(
                            ds,
                            sim_box,
                            i as int,
                            x as int,
                            b,
                        ))) by {
                        if x == j {
                            assert(neighbors@.take(t + 1)[t as int] == j);
                        } else {
                            if neighbors@.take(t + 1).contains(x) {
                                let k = choose|k: int|
                                    0 <= k < t + 1 && #[trigger] neighbors@.take(t + 1)[k] == x;
                                assert(neighbors@.take(t as int)[k] == x);
                            }
                            if neighbors@.take(t as int).contains(x) {
                                let k = choose|k: int|
                                    0 <= k < t && #[trigger] neighbors@.take(t as int)[k] == x;
                                assert(neighbors@.take(t + 1)[k] == x);
                            }
                        }
                    }
                }
                t = t + 1;
            }
            proof {
                assert(neighbors@.take(t as int) =~= neighbors@);
                assert forall|b: int| 0 <= b < N_BINS implies #[trigger] self.g@[b] == saturated(
                    g0[b] + pair_count(ds, sim_box, b, i + 1),
                ) by {
                    assert(sets[b] =~= bin_partners(ds, sim_box, i as int, b)) by {
                        assert forall|x: usize| #[trigger] sets[b].contains(x) == bin_partners(
                            ds,
                            sim_box,
                            i as int,
                            b,
                        ).contains(x) by {
                            if bin_partners(ds, sim_box, i as int, b).contains(x) {
                                lemma_bin_is_neighbor(state, i as int, x as int, b);
                                assert(ds.len() == disks.len());
                            }
                        }
                    }
                    assert(pair_count(ds, sim_box, b, i + 1) == pair_count(ds, sim_box, b, i as int)
                        + bin_partners(ds, sim_box, i as int, b).len());
                }
            }
        }
        if self.counter < u64::MAX {
            self.counter = self.counter + 1;
        }
    }
}

/// A partner in a bin lies within `2.1 r`, hence in an adjacent cell.
proof fn lemma_bin_is_neighbor(state: &State, i: int, j: int, n: int)
    requires
        state.inv(),
        0 <= i < state.disks_view().len(),
        0 <= j < state.disks_view().len(),
        i != j,
        0 <= n < N_BINS,
        pair_in_bin(state.disks_view(), state.box_view(), i, j, n),
    ensures
        state.neighbor_disk(i, j),
{
    let ds = state.disks_view();
    let r = ds[0].radius as int;
    let d = dist_sq_periodic(ds[i].position, ds[j].position, state.box_view());
    assert(d < 9 * r * r) by (nonlinear_arith)
        requires
            250000 * d < (1001 + n) * (1001 + n) * (r * r),
            0 <= n < 50,
            r >= 1,
    ;
    crate::geometry::lemma_close_points_in_near_cells(
        ds[i].position,
        ds[j].position,
        state.box_view(),
        r,
    );
}

} // verus!
