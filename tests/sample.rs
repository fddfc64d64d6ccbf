use hard_disks::disks::Disk;
use hard_disks::geometry::{Box, Position};
use hard_disks::sample::{npt_sweeps, propose_volume_move, sample_nvt, sample_nvt_with_displacement};
use hard_disks::state::State;
use hard_disks::thermo::{GofRlowR, Thermo, N_BINS};
use hard_disks::SCALE;
use rand::rngs::StdRng;
use rand::SeedableRng;

#[test]
fn nvt_acceptance_at_low_density() {
    let mut state = State::create_simple_state(100);
    let mut rng = StdRng::seed_from_u64(11);
    let sigma = SCALE / 2;
    let thermo = sample_nvt_with_displacement(&mut state, 1_000_000, (sigma / 2) as u64, &mut rng);
    assert_eq!(thermo.nvt_trials, 1_000_000);
    let rate = thermo.nvt_accepted as f64 / thermo.nvt_trials as f64;
    assert!(rate > 0.7, "acceptance {}", rate);
    assert!(thermo.nvt_accepted < thermo.nvt_trials);
    assert!(!state.are_any_disks_overlapping());
    assert_eq!(thermo.g_of_r.counter, 100);
    assert_eq!(thermo.g_of_r.g.len(), N_BINS);
    assert_eq!(state.sim_box(), Box { lx: 20 * SCALE, ly: 20 * SCALE });
}

#[test]
fn nvt_with_default_displacement() {
    let mut state = State::create_simple_state(100);
    let mut rng = StdRng::seed_from_u64(21);
    let before = state.disks().clone();
    let thermo = sample_nvt(&mut state, 2_000, &mut rng);
    assert_eq!(thermo.nvt_trials, 2_000);
    assert!(thermo.nvt_accepted > 1_900);
    for (a, b) in before.iter().zip(state.disks().iter()) {
        let dx = (b.position.x - a.position.x).rem_euclid(20 * SCALE);
        let dy = (b.position.y - a.position.y).rem_euclid(20 * SCALE);
        assert!(dx < 2_000 * 819 && dy < 2_000 * 819);
    }
    assert_ne!(&before, state.disks());
}

#[test]
fn nvt_keeps_cells_consistent() {
    let mut state = State::create_simple_state(49);
    let mut rng = StdRng::seed_from_u64(3);
    let thermo = sample_nvt(&mut state, 20_000, &mut rng);
    assert!(thermo.nvt_accepted > 0);
    for (i, d) in state.disks().iter().enumerate() {
        let mut moved = State::from_disks(state.disks().clone(), state.sim_box());
        moved.update_disk_coordinates(i, d.position.x, d.position.y);
        assert_eq!(moved.disks()[i].cell_id, d.cell_id);
    }
    assert!(!state.are_any_disks_overlapping());
    assert_eq!(thermo.g_of_r.counter, 5);
}

#[test]
fn histogram_bins_pairs_by_distance() {
    let r = SCALE / 2;
    let disks = vec![
        Disk { position: Position { x: 0, y: 0 }, radius: r, cell_id: 0 },
        Disk { position: Position { x: 2 * r, y: 0 }, radius: r, cell_id: 0 },
        Disk { position: Position { x: 0, y: 10 * r }, radius: r, cell_id: 0 },
        Disk { position: Position { x: 2 * r + 33, y: 10 * r }, radius: r, cell_id: 0 },
    ];
    let state = State::from_disks(disks, Box { lx: 40 * r, ly: 40 * r });
    let mut g = GofRlowR::empty_g_of_r();
    g.initialize_vectors(r);
    g.update(&state);
    assert_eq!(g.counter, 1);
    assert_eq!(g.g[0], 2);
    assert_eq!(g.g[2], 2);
    assert_eq!(g.g.iter().sum::<u64>(), 4);
    g.update(&state);
    assert_eq!(g.g[0], 4);
    assert_eq!(g.counter, 2);
}

#[test]
fn empty_thermo_is_zero() {
    let t = Thermo::empty_thermo();
    assert!(t.step.is_empty() && t.area.is_empty());
    assert_eq!((t.nvt_trials, t.nvt_accepted, t.npt_trials, t.npt_accepted), (0, 0, 0, 0));
    assert!(t.g_of_r.g.is_empty());
}

#[test]
fn volume_proposal_with_zero_change_keeps_side() {
    let state = State::create_simple_state(4);
    let mut rng = StdRng::seed_from_u64(5);
    let mut seen_x = false;
    let mut seen_y = false;
    for _ in 0..64 {
        let (along_x, side) = propose_volume_move(&state, 1, &mut rng).expect("positive area");
        assert_eq!(side, 20 * SCALE);
        seen_x = seen_x || along_x;
        seen_y = seen_y || !along_x;
    }
    assert!(seen_x && seen_y);
}

#[test]
fn volume_proposal_stays_within_bound() {
    let state = State::create_simple_state(4);
    let mut rng = StdRng::seed_from_u64(9);
    let side = 20 * SCALE;
    let mut changed = false;
    for _ in 0..200 {
        if let Some((_, new_side)) = propose_volume_move(&state, (side * 4) as u64, &mut rng) {
            assert!((new_side - side).abs() <= 4);
            changed = changed || new_side != side;
        }
    }
    assert!(changed);
}

#[test]
fn isobaric_sweep_bookkeeping() {
    assert_eq!(npt_sweeps(1000, 100), 10);
    assert_eq!(npt_sweeps(1001, 100), 11);
    assert_eq!(npt_sweeps(0, 7), 0);
    assert_eq!(npt_sweeps(u32::MAX, 1), u32::MAX);

    let state = State::create_simple_state(4);
    let mut rng = StdRng::seed_from_u64(2);
    let mut s2 = State::create_simple_state(4);
    let nvt = sample_nvt(&mut s2, 4, &mut rng);
    let mut t = Thermo::empty_thermo();
    t.record_npt_sweep(0, 4, &nvt, true, &state);
    t.record_npt_sweep(1, 4, &nvt, false, &state);
    t.record_npt_sweep(200, 4, &nvt, true, &state);
    assert_eq!(t.step, vec![0, 800]);
    let area = (20 * SCALE * 20 * SCALE) as u64;
    assert_eq!(t.area, vec![area, area]);
    assert_eq!(t.npt_trials, 3);
    assert_eq!(t.npt_accepted, 2);
    assert_eq!(t.nvt_trials, 12);
    assert_eq!(t.nvt_accepted, 3 * nvt.nvt_accepted);
}

#[test]
fn single_disk_keeps_every_trial() {
    let disks = vec![Disk { position: Position { x: 0, y: 0 }, radius: SCALE / 2, cell_id: 0 }];
    let mut state = State::from_disks(disks, Box { lx: 4 * SCALE, ly: 4 * SCALE });
    let mut rng = StdRng::seed_from_u64(4);
    let thermo = sample_nvt(&mut state, 500, &mut rng);
    assert_eq!(thermo.nvt_accepted, 500);
    assert_eq!(thermo.g_of_r.g.iter().sum::<u64>(), 0);
}
