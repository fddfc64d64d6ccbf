use hard_disks::disks::{are_any_disks_overlapping, are_disks_overlapping, Disk};
use hard_disks::geometry::{
    apply_boundary_conditions, distance_sq, distance_sq_periodic, put_in_box_x, put_in_box_y,
    wrap_into_box, Box, Position,
};

fn disk_at(x: i64, y: i64, radius: i64) -> Disk {
    Disk {
        position: Position { x, y },
        radius,
        cell_id: 0,
    }
}

#[test]
fn test_distance() {
    let pos_1 = Position { x: 0, y: 0 };
    let pos_2 = Position { x: 1, y: 2 };
    assert_eq!(distance_sq(&pos_1, &pos_2), 5);
}

#[test]
fn test_distance_periodic() {
    let pos_1 = Position { x: 0, y: 0 };
    let pos_2 = Position { x: 0, y: 4 };
    let sim_box = Box { lx: 1, ly: 5 };
    assert_eq!(distance_sq_periodic(&pos_1, &pos_2, &sim_box), 1);
}

#[test]
fn test_overalap() {
    let sim_box_1 = Box { lx: 1, ly: 10 };
    let sim_box_2 = Box { lx: 1, ly: 6 };
    let disk_1 = disk_at(0, 0, 2);
    let disk_2 = disk_at(0, 3, 2);
    let disk_3 = disk_at(0, 5, 2);
    assert!(are_disks_overlapping(&disk_1, &disk_2, &sim_box_1));
    assert!(!are_disks_overlapping(&disk_1, &disk_3, &sim_box_1));
    assert!(are_disks_overlapping(&disk_1, &disk_3, &sim_box_2));
}

#[test]
fn two_disk_overlap_in_square_box() {
    let sim_box = Box { lx: 10, ly: 10 };
    let a = disk_at(0, 0, 2);
    assert!(are_disks_overlapping(&a, &disk_at(0, 3, 2), &sim_box));
    assert!(!are_disks_overlapping(&a, &disk_at(0, 5, 2), &sim_box));
    assert!(are_disks_overlapping(&a, &disk_at(0, 5, 2), &Box { lx: 1, ly: 6 }));
}

#[test]
fn disks_exactly_in_contact_do_not_overlap() {
    let sim_box = Box { lx: 100, ly: 100 };
    assert!(!are_disks_overlapping(&disk_at(10, 10, 3), &disk_at(16, 10, 3), &sim_box));
    assert!(are_disks_overlapping(&disk_at(10, 10, 3), &disk_at(15, 10, 3), &sim_box));
}

#[test]
fn periodic_distance_uses_nearest_image() {
    let sim_box = Box { lx: 10, ly: 20 };
    let p = Position { x: 1, y: 2 };
    let q = Position { x: 9, y: 19 };
    assert_eq!(distance_sq_periodic(&p, &q, &sim_box), 4 + 9);
    assert_eq!(distance_sq(&p, &q), 64 + 289);
}

#[test]
fn periodic_distance_is_symmetric() {
    let sim_box = Box { lx: 10, ly: 7 };
    let points = [(0, 0), (5, 3), (9, 6), (2, 4), (7, 1)];
    for &(ax, ay) in points.iter() {
        for &(bx, by) in points.iter() {
            let p = Position { x: ax, y: ay };
            let q = Position { x: bx, y: by };
            assert_eq!(
                distance_sq_periodic(&p, &q, &sim_box),
                distance_sq_periodic(&q, &p, &sim_box)
            );
        }
    }
    let p = Position { x: 0, y: 0 };
    let q = Position { x: 5, y: 0 };
    assert_eq!(distance_sq_periodic(&p, &q, &sim_box), 25);
    assert_eq!(distance_sq_periodic(&q, &p, &sim_box), 25);
}

#[test]
fn periodic_distance_at_most_half_diagonal() {
    let sim_box = Box { lx: 10, ly: 6 };
    let bound = (10 * 10 + 6 * 6) as u64;
    for x1 in 0..10 {
        for y1 in 0..6 {
            let p = Position { x: x1, y: y1 };
            let q = Position { x: 0, y: 0 };
            assert!(4 * distance_sq_periodic(&p, &q, &sim_box) <= bound);
        }
    }
    let far = Position { x: 5, y: 3 };
    assert_eq!(4 * distance_sq_periodic(&far, &Position { x: 0, y: 0 }, &sim_box), bound);
}

#[test]
fn wrap_handles_negative_and_large_values() {
    assert_eq!(wrap_into_box(-1, 10), 9);
    assert_eq!(wrap_into_box(-10, 10), 0);
    assert_eq!(wrap_into_box(-11, 10), 9);
    assert_eq!(wrap_into_box(10, 10), 0);
    assert_eq!(wrap_into_box(25, 10), 5);
    assert_eq!(wrap_into_box(7, 10), 7);
    assert_eq!(wrap_into_box(i64::MIN, 10), 2);
}

#[test]
fn wrap_is_idempotent() {
    for x in -35..35 {
        let once = wrap_into_box(x, 7);
        assert_eq!(wrap_into_box(once, 7), once);
        assert!(0 <= once && once < 7);
    }
}

#[test]
fn put_in_box_uses_each_side() {
    let sim_box = Box { lx: 4, ly: 9 };
    assert_eq!(put_in_box_x(-1, &sim_box), 3);
    assert_eq!(put_in_box_y(-1, &sim_box), 8);
    assert_eq!(put_in_box_x(9, &sim_box), 1);
    assert_eq!(put_in_box_y(9, &sim_box), 0);
}

#[test]
fn boundary_conditions_shift_by_one_side() {
    let sim_box = Box { lx: 10, ly: 4 };
    let mut dx: i64 = 7;
    let mut dy: i64 = -3;
    apply_boundary_conditions(&mut dx, &mut dy, &sim_box);
    assert_eq!((dx, dy), (-3, 1));
    let mut dx: i64 = 5;
    let mut dy: i64 = -2;
    apply_boundary_conditions(&mut dx, &mut dy, &sim_box);
    assert_eq!((dx, dy), (5, -2));
}

#[test]
fn exhaustive_check_finds_one_pair() {
    let sim_box = Box { lx: 50, ly: 50 };
    let mut disks = vec![disk_at(1, 1, 2), disk_at(20, 20, 2), disk_at(40, 5, 2)];
    assert!(!are_any_disks_overlapping(&disks, &sim_box));
    disks.push(disk_at(43, 5, 2));
    assert!(are_any_disks_overlapping(&disks, &sim_box));
    disks[3] = disk_at(49, 49, 2);
    assert!(are_any_disks_overlapping(&disks, &sim_box));
    disks[3] = disk_at(49, 30, 2);
    assert!(!are_any_disks_overlapping(&disks, &sim_box));
}
