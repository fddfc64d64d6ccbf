//! The Monte Carlo drivers: displacement sweeps and volume-move proposals,
//! drawing their random numbers from a seedable generator.

use rand::rngs::StdRng;
use rand::Rng;
use vstd::prelude::*;

use crate::disks::Disk;
use crate::geometry::{box_ok, Box};
use crate::state::{area_after, displaced, overlaps_other, proposed_side, State};
use crate::thermo::{pair_count, saturated, Thermo, N_BINS};
use crate::MAX_SIDE;

verus! {

#[verifier::external_type_specification]
#[verifier::external_body]
pub struct ExStdRng(StdRng);

/// Relies on rand's `Rng::gen_range` on `0..n`: a value of the half-open
/// range, which must not be empty.
#[verifier::external_body]
fn uniform_below(rng: &mut StdRng, n: u64) -> (r: u64)
    requires
        n > 0,
    ensures
        r < n,
{
    rng.gen_range(0..n)
}

/// Relies on rand's `Rng::gen_ratio`: `false` when `numerator` is zero,
/// `true` when it equals `denominator`, which must be positive and not below
/// `numerator`.
#[verifier::external_body]
fn bernoulli(rng: &mut StdRng, numerator: u32, denominator: u32) -> (r: bool)
    requires
        0 < denominator,
        numerator <= denominator,
    ensures
        numerator == 0 ==> !r,
        numerator == denominator ==> r,
{
    rng.gen_ratio(numerator, denominator)
}

/// Bound on the displacement of one trial along each axis, exclusive:
/// 0.05 unit of length, in whole quanta.
pub const MAX_DISPLACEMENT: u64 = 819;

/// Trial steps between two histogram samples, per disk.
pub const SWEEPS_BETWEEN_SAMPLES: u64 = 100;

/// Number of multiples of `p` in `[0, s)`.
pub open spec fn samples_before(s: int, p: int) -> int {
    (s + p - 1) / p
}

proof fn lemma_samples_step(s: int, p: int)
    requires
        0 <= s,
        1 <= p,
    ensures
        samples_before(s + 1, p) == samples_before(s, p) + (if s % p == 0 {
            1int
        } else {
            0int
        }),
{
    vstd::arithmetic::div_mod::lemma_fundamental_div_mod(s, p);
    vstd::arithmetic::div_mod::lemma_mod_bound(s, p);
    let q = s / p;
    let r = s % p;
    if r == 0 {
        assert(s + p - 1 == q * p + (p - 1)) by (nonlinear_arith)
            requires
                s == p * q + r,
                r == 0,
        ;
        vstd::arithmetic::div_mod::lemma_fundamental_div_mod_converse_div(s + p - 1, p, q, p - 1);
        assert(s + 1 + p - 1 == (q + 1) * p + 0) by (nonlinear_arith)
            requires
                s == p * q + r,
                r == 0,
        ;
        vstd::arithmetic::div_mod::lemma_fundamental_div_mod_converse_div(s + p, p, q + 1, 0);
    } else {
        assert(s + p - 1 == (q + 1) * p + (r - 1)) by (nonlinear_arith)
            requires
                s == p * q + r,
        ;
        vstd::arithmetic::div_mod::lemma_fundamental_div_mod_converse_div(s + p - 1, p, q + 1, r - 1);
        assert(s + p == (q + 1) * p + r) by (nonlinear_arith)
            requires
                s == p * q + r,
        ;
        vstd::arithmetic::div_mod::lemma_fundamental_div_mod_converse_div(s + p, p, q + 1, r);
    }
}

/// One displacement trial `(i, dx, dy)`: disk `i` moves by `(dx, dy)`
/// unless it then overlaps another disk.
pub open spec fn trial_kept(ds: Seq<Disk>, b: Box, t: (int, int, int)) -> bool {
    !overlaps_other(displaced(ds, t.0, t.1, t.2, b), t.0, b)
}

/// The disks after one displacement trial.
pub open spec fn after_trial(ds: Seq<Disk>, b: Box, t: (int, int, int)) -> Seq<Disk> {
    if trial_kept(ds, b, t) {
        displaced(ds, t.0, t.1, t.2, b)
    } else {
        ds
    }
}

/// The disks after the trials `draws`, applied in order.
pub open spec fn after_trials(ds: Seq<Disk>, b: Box, draws: Seq<(int, int, int)>) -> Seq<Disk>
    decreases draws.len(),
{
    if draws.len() == 0 {
        ds
    } else {
        after_trial(after_trials(ds, b, draws.drop_last()), b, draws.last())
    }
}

/// How many of the trials `draws` were kept.
pub open spec fn kept_trials(ds: Seq<Disk>, b: Box, draws: Seq<(int, int, int)>) -> int
    decreases draws.len(),
{
    if draws.len() == 0 {
        0
    } else {
        kept_trials(ds, b, draws.drop_last()) + if trial_kept(
            after_trials(ds, b, draws.drop_last()),
            b,
            draws.last(),
        ) {
            1int
        } else {
            0int
        }
    }
}

/// Pairs counted in bin `n` over the configurations sampled among the first
/// `k` trials: after trial `s` whenever `s` is a multiple of `period`.
pub open spec fn sampled_pairs(
    ds: Seq<Disk>,
    b: Box,
    draws: Seq<(int, int, int)>,
    period: int,
    n: int,
    k: int,
) -> int
    decreases k,
{
    if k <= 0 {
        0
    } else {
        sampled_pairs(ds, b, draws, period, n, k - 1) + if (k - 1) % period == 0 {
            pair_count(after_trials(ds, b, draws.take(k)), b, n, ds.len() as int)
        } else {
            0
        }
    }
}

/// Each trial names a disk and two displacement components in `[0, max)`.
pub open spec fn draws_ok(draws: Seq<(int, int, int)>, n: int, max: int) -> bool {
    forall|t: int|
        0 <= t < draws.len() ==> {
            &&& 0 <= (#[trigger] draws[t]).0 < n
            &&& 0 <= draws[t].1 < max
            &&& 0 <= draws[t].2 < max
        }
}

/// A run of displacement trials `draws` from disks `ds` in box `b` ends
/// with the disks `final_ds`, `accepted` kept trials and histogram `g`.
pub open spec fn nvt_run(
    ds: Seq<Disk>,
    b: Box,
    draws: Seq<(int, int, int)>,
    max: int,
    final_ds: Seq<Disk>,
    accepted: int,
    g: Seq<u64>,
) -> bool {
    let period = SWEEPS_BETWEEN_SAMPLES * ds.len();
    &&& draws_ok(draws, ds.len() as int, max)
    &&& final_ds == after_trials(ds, b, draws)
    &&& accepted == kept_trials(ds, b, draws)
    &&& g.len() == N_BINS
    &&& forall|n: int|
        0 <= n < N_BINS ==> #[trigger] g[n] == saturated(
            sampled_pairs(ds, b, draws, period, n, draws.len() as int),
        )
}

proof fn lemma_pair_count_nonneg(ds: Seq<Disk>, b: Box, n: int, k: int)
    ensures
        pair_count(ds, b, n, k) >= 0,
    decreases k,
{
    if k > 0 {
        lemma_pair_count_nonneg(ds, b, n, k - 1);
    }
}

proof fn lemma_sampled_prefix(
    ds: Seq<Disk>,
    b: Box,
    d1: Seq<(int, int, int)>,
    d2: Seq<(int, int, int)>,
    period: int,
    n: int,
    k: int,
)
    requires
        0 <= k <= d1.len(),
        k <= d2.len(),
        d1.take(k) == d2.take(k),
    ensures
        sampled_pairs(ds, b, d1, period, n, k) == sampled_pairs(ds, b, d2, period, n, k),
    decreases k,
{
    if k > 0 {
        assert(d1.take(k - 1) =~= d1.take(k).take(k - 1));
        assert(d2.take(k - 1) =~= d2.take(k).take(k - 1));
        lemma_sampled_prefix(ds, b, d1, d2, period, n, k - 1);
    }
}

/// Runs `nb_steps` displacement trials with the default bound on the
/// displacement, `MAX_DISPLACEMENT`.
pub fn sample_nvt(state: &mut State, nb_steps: u32, rng: &mut StdRng) -> (thermo: Thermo)
    requires
        old(state).inv(),
        old(state).disks_view().len() <= u32::MAX,
    ensures
        final(state).inv(),
        final(state).box_view() == old(state).box_view(),
        final(state).disks_view().len() == old(state).disks_view().len(),
        final(state).radius() == old(state).radius(),
        thermo.nvt_trials == nb_steps,
        thermo.nvt_accepted <= nb_steps,
        exists|draws: Seq<(int, int, int)>|
            draws.len() == nb_steps && #[trigger] nvt_run(
                old(state).disks_view(),
                old(state).box_view(),
                draws,
                MAX_DISPLACEMENT as int,
                final(state).disks_view(),
                thermo.nvt_accepted as int,
                thermo.g_of_r.g@,
            ),
        thermo.npt_trials == 0,
        thermo.npt_accepted == 0,
        thermo.step@.len() == 0,
        thermo.area@.len() == 0,
        thermo.g_of_r.g@.len() == N_BINS,
        thermo.g_of_r.radius == old(state).radius(),
        thermo.g_of_r.counter == samples_before(
            nb_steps as int,
            SWEEPS_BETWEEN_SAMPLES * old(state).disks_view().len(),
        ),
{
    sample_nvt_with_displacement(state, nb_steps, MAX_DISPLACEMENT, rng)
}

/// Runs `nb_steps` displacement trials. Each trial draws a displacement in
/// `[0, max_displacement)` along each axis and a disk uniformly, and keeps
/// the move only if that disk then overlaps no other. The pair-distance
/// histogram takes a sample before every `100 N`-th trial.
///
/// Both displacement components are non-negative, so the trial move is not
/// isotropic and has a non-zero mean.
pub fn sample_nvt_with_displacement(
    state: &mut State,
    nb_steps: u32,
    max_displacement: u64,
    rng: &mut StdRng,
) -> (thermo: Thermo)
    requires
        old(state).inv(),
        old(state).disks_view().len() <= u32::MAX,
        1 <= max_displacement <= MAX_SIDE,
    ensures
        final(state).inv(),
        final(state).box_view() == old(state).box_view(),
        final(state).disks_view().len() == old(state).disks_view().len(),
        final(state).radius() == old(state).radius(),
        thermo.nvt_trials == nb_steps,
        thermo.nvt_accepted <= nb_steps,
        exists|draws: Seq<(int, int, int)>|
            draws.len() == nb_steps && #[trigger] nvt_run(
                old(state).disks_view(),
                old(state).box_view(),
                draws,
                max_displacement as int,
                final(state).disks_view(),
                thermo.nvt_accepted as int,
                thermo.g_of_r.g@,
            ),
        thermo.npt_trials == 0,
        thermo.npt_accepted == 0,
        thermo.step@.len() == 0,
        thermo.area@.len() == 0,
        thermo.g_of_r.g@.len() == N_BINS,
        thermo.g_of_r.radius == old(state).radius(),
        thermo.g_of_r.counter == samples_before(
            nb_steps as int,
            SWEEPS_BETWEEN_SAMPLES * old(state).disks_view().len(),
        ),
{
    let mut thermo = Thermo::empty_thermo();
    let radius: i64 = state.disks()[0].radius;
    thermo.g_of_r.initialize_vectors(radius);
    let nb_disks: u64 = state.disks().len() as u64;
    let period: u64 = SWEEPS_BETWEEN_SAMPLES * nb_disks;
    let ghost n0 = state.disks_view().len();
    let ghost box0 = state.box_view();
    let ghost ds0 = state.disks_view();
    let ghost mut draws: Seq<(int, int, int)> = Seq::empty();
    let mut nb_success: u64 = 0;
    proof {
        vstd::arithmetic::div_mod::lemma_fundamental_div_mod_converse_div(
            period as int - 1,
            period as int,
            0,
            period as int - 1,
        );
    }
    for step_id in 0..nb_steps
        invariant
            state.inv(),
            state.box_view() == box0,
            state.disks_view().len() == n0,
            n0 == nb_disks,
            1 <= nb_disks <= u32::MAX,
            period == SWEEPS_BETWEEN_SAMPLES * nb_disks,
            radius == state.radius(),
            1 <= max_displacement <= MAX_SIDE,
            nb_success <= step_id,
            thermo.nvt_trials == 0,
            thermo.npt_trials == 0,
            thermo.npt_accepted == 0,
            thermo.step@.len() == 0,
            thermo.area@.len() == 0,
            thermo.g_of_r.g@.len() == N_BINS,
            thermo.g_of_r.radius == radius,
            thermo.g_of_r.counter == samples_before(step_id as int, period as int),
            thermo.g_of_r.counter <= step_id,
            ds0.len() == n0,
            draws.len() == step_id,
            nvt_run(
                ds0,
                box0,
                draws,
                max_displacement as int,
                state.disks_view(),
                nb_success as int,
                thermo.g_of_r.g@,
            ),
    {
        let dx: u64 = uniform_below(rng, max_displacement);
        let dy: u64 = uniform_below(rng, max_displacement);
        let disk_index: usize = uniform_below(rng, nb_disks) as usize;
        let ghost before = draws;
        let ghost g_before = thermo.g_of_r.g@;
        let accepted = state.nvt_trial(disk_index, dx as i64, dy as i64);
        if accepted {
            nb_success = nb_success + 1;
        }
        proof {
            lemma_samples_step(step_id as int, period as int);
            let t = (disk_index as int, dx as int, dy as int);
            draws = draws.push(t);
            assert(draws.drop_last() =~= before);
            assert(draws.take(draws.len() as int) =~= draws);
            assert forall|n: int| 0 <= n < N_BINS implies sampled_pairs(
                ds0,
                box0,
                draws,
                period as int,
                n,
                step_id as int,
            ) == sampled_pairs(ds0, box0, before, period as int, n, step_id as int) by {
                assert(draws.take(step_id as int) =~= before.take(step_id as int));
                lemma_sampled_prefix(ds0, box0, draws, before, period as int, n, step_id as int);
            }
            assert forall|t2: int| 0 <= t2 < draws.len() implies {
                &&& 0 <= (#[trigger] draws[t2]).0 < n0
                &&& 0 <= draws[t2].1 < max_displacement
                &&& 0 <= draws[t2].2 < max_displacement
            } by {
                if t2 < before.len() {
                    assert(draws[t2] == before[t2]);
                }
            }
        }
        if step_id as u64 % period == 0 {
            thermo.g_of_r.update(state);
            proof {
                assert forall|n: int| 0 <= n < N_BINS implies #[trigger] thermo.g_of_r.g@[n]
                    == saturated(
                    sampled_pairs(ds0, box0, draws, period as int, n, draws.len() as int),
                ) by {
                    lemma_pair_count_nonneg(state.disks_view(), box0, n, n0 as int);
                }
            }
        } else {
            proof {
                assert forall|n: int| 0 <= n < N_BINS implies #[trigger] thermo.g_of_r.g@[n]
                    == saturated(
                    sampled_pairs(ds0, box0, draws, period as int, n, draws.len() as int),
                ) by {
                    assert(g_before[n] == thermo.g_of_r.g@[n]);
                }
            }
        }
    }
    thermo.nvt_trials = nb_steps as u64;
    thermo.nvt_accepted = nb_success;
    proof {
        assert(draws.len() == nb_steps);
        assert(nvt_run(
            ds0,
            box0,
            draws,
            max_displacement as int,
            state.disks_view(),
            thermo.nvt_accepted as int,
            thermo.g_of_r.g@,
        ));
    }
    thermo
}

/// `side` is the side along the chosen axis after some area change
/// `dv` with `|dv| < max` that keeps the area positive; the area then
/// changes by less than `max`.
pub open spec fn volume_move_drawn(
    b: crate::geometry::Box,
    max: int,
    along_x: bool,
    side: int,
) -> bool {
    exists|dv: int|
        -max < dv < max && b.lx * b.ly + dv > 0 && side == #[trigger] proposed_side(b, along_x, dv)
            && 1 <= side <= MAX_SIDE && -max < area_after(b, along_x, side) - b.lx * b.ly < max
}

/// Some area change `dv` with `|dv| < max` leaves no positive area, or
/// gives a side out of range along some axis.
pub open spec fn volume_move_refused(b: crate::geometry::Box, max: int) -> bool {
    exists|dv: int| -max < dv < max && #[trigger] change_refused(b, dv)
}

/// The area change `dv` leaves no positive area, or gives a side out of
/// range along one of the axes.
pub open spec fn change_refused(b: crate::geometry::Box, dv: int) -> bool {
    ||| b.lx * b.ly + dv <= 0
    ||| !(1 <= proposed_side(b, true, dv) <= MAX_SIDE)
    ||| !(1 <= proposed_side(b, false, dv) <= MAX_SIDE)
}

/// Sweeps of an isobaric run of `nb_steps` displacement trials: one per
/// `nb_disks` trials, rounded up.
pub fn npt_sweeps(nb_steps: u32, nb_disks: u32) -> (r: u32)
    requires
        nb_disks >= 1,
    ensures
        r as int == (nb_steps + nb_disks - 1) / (nb_disks as int),
{
    let total: u64 = nb_steps as u64 + nb_disks as u64 - 1;
    let r: u64 = total / (nb_disks as u64);
    proof {
        vstd::arithmetic::div_mod::lemma_fundamental_div_mod(total as int, nb_disks as int);
        vstd::arithmetic::div_mod::lemma_mod_bound(total as int, nb_disks as int);
    }
    assert(r <= u32::MAX) by (nonlinear_arith)
        requires
            total as int == nb_disks * (r as int) + (total as int) % (nb_disks as int),
            (total as int) % (nb_disks as int) >= 0,
            total == nb_steps + nb_disks - 1,
            nb_steps <= u32::MAX,
            nb_disks >= 1,
    ;
    r as u32
}

/// Largest accepted bound on the area change of a volume trial.
pub const MAX_VOLUME_CHANGE: u64 = 4611686018427387904;

/// The random part of a volume trial before its Metropolis test: draws an
/// area change uniformly in `(-max_volume_change, max_volume_change)`, gives
/// up when the area would not stay positive, then picks the axis with
/// probability one half each. Returns the axis (`true` for x) and the side
/// that axis would get, or `None` when the trial is rejected outright.
pub fn propose_volume_move(state: &State, max_volume_change: u64, rng: &mut StdRng) -> (r: Option<
    (bool, i64),
>)
    requires
        box_ok(state.box_view()),
        1 <= max_volume_change <= MAX_VOLUME_CHANGE,
    ensures
        r matches Some(p) ==> volume_move_drawn(
            state.box_view(),
            max_volume_change as int,
            p.0,
            p.1 as int,
        ),
        r is None ==> volume_move_refused(state.box_view(), max_volume_change as int),
        max_volume_change == 1 ==> (r matches Some(p) && p.1 == (if p.0 {
            state.box_view().lx
        } else {
            state.box_view().ly
        })),
{
    let sim_box = state.sim_box();
    let v: u64 = uniform_below(rng, 2 * max_volume_change - 1);
    let delta_v: i64 = v as i64 - (max_volume_change as i64 - 1);
    assert(sim_box.lx * sim_box.ly <= MAX_SIDE * MAX_SIDE) by (nonlinear_arith)
        requires
            1 <= sim_box.lx <= MAX_SIDE,
            1 <= sim_box.ly <= MAX_SIDE,
    ;
    let area: i64 = sim_box.lx * sim_box.ly;
    assert(area >= 1) by (nonlinear_arith)
        requires
            area == sim_box.lx * sim_box.ly,
            sim_box.lx >= 1,
            sim_box.ly >= 1,
    ;
    if area + delta_v <= 0 {
        proof {
            assert(-max_volume_change < delta_v < max_volume_change);
            assert(change_refused(sim_box, delta_v as int));
        }
        return None;
    }
    proof {
        if max_volume_change == 1 {
            assert(delta_v == 0);
            assert(proposed_side(sim_box, true, 0) == sim_box.lx);
            assert(proposed_side(sim_box, false, 0) == sim_box.ly);
        }
    }
    let along_x: bool = bernoulli(rng, 1, 2);
    match state.propose_volume_change(along_x, delta_v) {
        Some(side) => {
            proof {
                let dv = delta_v as int;
                assert(-max_volume_change < dv < max_volume_change);
                assert(state.box_view().lx * state.box_view().ly + dv > 0);
                assert(side == proposed_side(state.box_view(), along_x, dv));
                assert(volume_move_drawn(
                    state.box_view(),
                    max_volume_change as int,
                    along_x,
                    side as int,
                ));
            }
            Some((along_x, side))
        },
        None => {
            proof {
                let dv = delta_v as int;
                assert(-max_volume_change < dv < max_volume_change);
                assert(!(1 <= proposed_side(state.box_view(), along_x, dv) <= MAX_SIDE));
                assert(change_refused(state.box_view(), dv));
            }
            None
        },
    }
}

} // verus!
