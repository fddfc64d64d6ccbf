use hard_disks::disks::{are_disks_overlapping, Disk};
use hard_disks::geometry::{Box, Position};
use hard_disks::state::State;
use hard_disks::SCALE;
use rand::rngs::StdRng;
use rand::{Rng, SeedableRng};

fn to_quanta(v: f64) -> i64 {
    (v * SCALE as f64).round() as i64
}

fn hexagonal_box(n_row: u32, n_column: u32, packing_fraction: f64) -> (i64, i64) {
    let radius = 0.5;
    let disk_volume = (n_row * n_column) as f64 * radius * radius * std::f64::consts::PI;
    let box_volume = disk_volume / packing_fraction;
    let ly_over_lx = 3.0_f64.sqrt() / 2.0 * (n_row as f64) / (n_column as f64);
    let lx = (box_volume / ly_over_lx).sqrt();
    (to_quanta(lx), to_quanta(ly_over_lx * lx))
}

fn brute_force_overlap(state: &State, i: usize) -> bool {
    let disks = state.disks();
    let sim_box = state.sim_box();
    (0..disks.len()).any(|j| j != i && are_disks_overlapping(&disks[i], &disks[j], &sim_box))
}

#[test]
fn square_lattice_of_one_hundred() {
    let state = State::create_simple_state(100);
    assert_eq!(state.disks().len(), 100);
    assert_eq!(state.sim_box(), Box { lx: 20 * SCALE, ly: 20 * SCALE });
    assert!(!state.are_any_disks_overlapping());
    assert!(!hard_disks::disks::are_any_disks_overlapping(state.disks(), &state.sim_box()));
    let d = state.disks()[23];
    assert_eq!(d.position, Position { x: 4 * SCALE, y: 6 * SCALE });
    assert_eq!(d.radius, SCALE / 2);
}

#[test]
fn square_lattice_with_partial_column() {
    let state = State::create_simple_state(5);
    assert_eq!(state.disks().len(), 5);
    let xs: Vec<(i64, i64)> = state
        .disks()
        .iter()
        .map(|d| (d.position.x / SCALE, d.position.y / SCALE))
        .collect();
    assert_eq!(xs, vec![(0, 0), (0, 2), (0, 4), (2, 0), (2, 2)]);
}

#[test]
fn hexagonal_packing_at_eight_tenths() {
    let (lx, ly) = hexagonal_box(10, 10, 0.8);
    assert!(((lx as f64 / SCALE as f64) - 10.648).abs() < 0.005);
    assert!(((ly as f64 / SCALE as f64) - 9.222).abs() < 0.005);
    let state = State::hexagonal_packing(10, 10, lx, ly).expect("no overlap at 0.8");
    assert_eq!(state.disks().len(), 100);
    assert!(!state.are_any_disks_overlapping());
    let w = lx / 10;
    let h = ly / 10;
    assert_eq!(state.disks()[0].position, Position { x: w / 4, y: h / 2 });
    assert_eq!(state.disks()[11].position, Position { x: w / 4 + w + w / 2, y: h / 2 + h });
}

#[test]
fn hexagonal_packing_too_dense_is_refused() {
    let (lx, ly) = hexagonal_box(10, 10, 0.95);
    assert!(State::hexagonal_packing(10, 10, lx, ly).is_none());
}

#[test]
fn cell_query_matches_exhaustive_check() {
    let mut rng = StdRng::seed_from_u64(7);
    for round in 0..4 {
        let side = 20 * SCALE + round * 3 * SCALE;
        let disks: Vec<Disk> = (0..256)
            .map(|_| Disk {
                position: Position { x: rng.gen_range(0..side), y: rng.gen_range(0..side) },
                radius: SCALE / 2,
                cell_id: 0,
            })
            .collect();
        let state = State::from_disks(disks, Box { lx: side, ly: side });
        let mut any = false;
        for i in 0..256 {
            let expected = brute_force_overlap(&state, i);
            assert_eq!(state.is_disk_overlapping(i), expected);
            any = any || expected;
        }
        assert_eq!(state.are_any_disks_overlapping(), any);
    }
}

#[test]
fn small_box_uses_a_single_cell() {
    let disks = vec![
        Disk { position: Position { x: 0, y: 0 }, radius: 2, cell_id: 0 },
        Disk { position: Position { x: 4, y: 4 }, radius: 2, cell_id: 0 },
    ];
    let state = State::from_disks(disks, Box { lx: 8, ly: 8 });
    assert!(!state.is_disk_overlapping(0));
    assert_eq!(state.get_neighbor_disks(0), vec![1]);
    let disks = vec![
        Disk { position: Position { x: 0, y: 0 }, radius: 2, cell_id: 0 },
        Disk { position: Position { x: 7, y: 7 }, radius: 2, cell_id: 0 },
    ];
    let state = State::from_disks(disks, Box { lx: 8, ly: 8 });
    assert!(state.is_disk_overlapping(0));
    assert!(state.is_disk_overlapping(1));
}

#[test]
fn neighbor_disks_exclude_self_and_cover_adjacent_cells() {
    let state = State::create_simple_state(100);
    let neighbors = state.get_neighbor_disks(0);
    assert!(!neighbors.contains(&0));
    assert!(neighbors.contains(&1));
    assert!(neighbors.contains(&10));
    let mut sorted = neighbors.clone();
    sorted.sort();
    sorted.dedup();
    assert_eq!(sorted.len(), neighbors.len());
}

#[test]
fn moving_a_disk_wraps_and_changes_cell() {
    let mut state = State::create_simple_state(4);
    let before = state.disks()[0].cell_id;
    state.update_disk_coordinates(0, -1, -1);
    let d = state.disks()[0];
    assert_eq!(d.position, Position { x: 20 * SCALE - 1, y: 20 * SCALE - 1 });
    assert_ne!(d.cell_id, before);
    assert!(state.get_neighbor_disks(1).iter().all(|&j| j != 1));
    state.update_disk_coordinates(0, 0, 0);
    assert_eq!(state.disks()[0].cell_id, before);
    assert!(!state.is_disk_overlapping(0));
}

#[test]
fn rejected_volume_move_restores_everything() {
    let mut state = State::create_simple_state(100);
    let disks_before = state.disks().clone();
    let box_before = state.sim_box();
    assert!(!state.rescale_box(true, 5 * SCALE));
    assert_eq!(state.sim_box(), box_before);
    assert_eq!(state.disks(), &disks_before);
    assert!(!state.rescale_box(false, 5 * SCALE));
    assert_eq!(state.disks(), &disks_before);
}

#[test]
fn accepted_volume_move_scales_coordinates() {
    let mut state = State::create_simple_state(100);
    assert!(state.rescale_box(true, 30 * SCALE));
    assert_eq!(state.sim_box(), Box { lx: 30 * SCALE, ly: 20 * SCALE });
    let d = state.disks()[23];
    assert_eq!(d.position, Position { x: 6 * SCALE, y: 6 * SCALE });
    assert!(!state.are_any_disks_overlapping());
}

#[test]
fn nvt_trial_keeps_or_undoes_the_move() {
    let mut state = State::create_simple_state(100);
    assert!(state.nvt_trial(0, 100, 0));
    assert_eq!(state.disks()[0].position, Position { x: 100, y: 0 });
    assert!(!state.nvt_trial(0, SCALE + SCALE / 2, 0));
    assert_eq!(state.disks()[0].position, Position { x: 100, y: 0 });
}

#[test]
fn volume_change_proposal() {
    let disks = vec![Disk { position: Position { x: 0, y: 0 }, radius: 1, cell_id: 0 }];
    let state = State::from_disks(disks, Box { lx: 100, ly: 50 });
    assert_eq!(state.propose_volume_change(true, 120), Some(102));
    assert_eq!(state.propose_volume_change(true, -120), Some(98));
    assert_eq!(state.propose_volume_change(false, 120), Some(51));
    assert_eq!(state.propose_volume_change(true, 0), Some(100));
    assert_eq!(state.propose_volume_change(true, -5000), None);
    assert_eq!(state.propose_volume_change(false, -10000), None);
}

#[test]
fn rebuilding_the_grid_keeps_disks_and_cells() {
    let mut state = State::create_simple_state(30);
    let before = state.disks().clone();
    state.update_grid();
    assert_eq!(state.disks(), &before);
    assert!(!state.are_any_disks_overlapping());
    let mut neighbors = state.get_neighbor_disks(0);
    neighbors.sort();
    assert!(neighbors.contains(&1) && !neighbors.contains(&0));
}

#[test]
fn rebuilding_twice_gives_the_same_lists() {
    let mut state = State::create_simple_state(50);
    state.update_disk_coordinates(3, 9 * SCALE, 11 * SCALE);
    state.update_grid();
    let first: Vec<Vec<usize>> = (0..50).map(|i| state.get_neighbor_disks(i)).collect();
    state.update_grid();
    let second: Vec<Vec<usize>> = (0..50).map(|i| state.get_neighbor_disks(i)).collect();
    assert_eq!(first, second);
}
