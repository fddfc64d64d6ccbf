//! The disk record and the pairwise overlap rule.

use vstd::prelude::*;

use crate::geometry::{box_ok, dist_sq_periodic, distance_sq_periodic, position_ok, Box, Position};
use crate::MAX_SIDE;

verus! {

/// A disk: its centre, its radius and the cell of the grid that holds it.
#[derive(Clone, Copy, Debug, PartialEq, Eq, Structural)]
pub struct Disk {
    pub position: Position,
    pub radius: i64,
    pub cell_id: usize,
}

/// A disk whose numbers stay in the exact range of the geometry.
pub open spec fn disk_ok(d: Disk) -> bool {
    position_ok(d.position) && 0 <= d.radius <= MAX_SIDE
}

/// Two disks overlap when their centres are closer than the sum of their radii,
/// measured to the nearest periodic image.
pub open spec fn disks_overlap(d1: Disk, d2: Disk, b: Box) -> bool {
    dist_sq_periodic(d1.position, d2.position, b) < (d1.radius + d2.radius) * (d1.radius
        + d2.radius)
}

/// Some two distinct disks of the sequence overlap.
pub open spec fn any_overlap(ds: Seq<Disk>, b: Box) -> bool {
    exists|i: int, j: int|
        0 <= i < ds.len() && 0 <= j < ds.len() && i != j && #[trigger] disks_overlap(
            ds[i],
            ds[j],
            b,
        )
}

pub fn are_disks_overlapping(disk_1: &Disk, disk_2: &Disk, sim_box: &Box) -> (r: bool)
    requires
        disk_ok(*disk_1),
        disk_ok(*disk_2),
        box_ok(*sim_box),
    ensures
        r == disks_overlap(*disk_1, *disk_2, *sim_box),
{
    let rsq: u64 = distance_sq_periodic(&disk_1.position, &disk_2.position, sim_box);
    let sigma: i64 = disk_1.radius + disk_2.radius;
    assert(sigma * sigma <= 4 * MAX_SIDE * MAX_SIDE) by (nonlinear_arith)
        requires
            0 <= sigma <= 2 * MAX_SIDE,
    ;
    let sigma_sq: u64 = (sigma * sigma) as u64;
    rsq < sigma_sq
}

/// Exhaustive check over all ordered pairs of distinct disks.
pub fn are_any_disks_overlapping(disks: &Vec<Disk>, sim_box: &Box) -> (r: bool)
    requires
        forall|i: int| 0 <= i < disks@.len() ==> disk_ok(#[trigger] disks@[i]),
        box_ok(*sim_box),
    ensures
        r == any_overlap(disks@, *sim_box),
{
    let n = disks.len();
    for i in 0..n
        invariant
            n == disks@.len(),
            forall|k: int| 0 <= k < disks@.len() ==> disk_ok(#[trigger] disks@[k]),
            box_ok(*sim_box),
            forall|a: int, c: int|
                0 <= a < i && 0 <= c < n && a != c ==> !#[trigger] disks_overlap(
                    disks@[a],
                    disks@[c],
                    *sim_box,
                ),
    {
        for j in 0..n
            invariant
                n == disks@.len(),
                0 <= i < n,
                forall|k: int| 0 <= k < disks@.len() ==> disk_ok(#[trigger] disks@[k]),
                box_ok(*sim_box),
                forall|a: int, c: int|
                    0 <= a < i && 0 <= c < n && a != c ==> !#[trigger] disks_overlap(
                        disks@[a],
                        disks@[c],
                        *sim_box,
                    ),
                forall|c: int|
                    0 <= c < j && i != c ==> !#[trigger] disks_overlap(
                        disks@[i as int],
                        disks@[c],
                        *sim_box,
                    ),
        {
            if i != j && are_disks_overlapping(&disks[i], &disks[j], sim_box) {
                return true;
            }
        }
    }
    false
}

} // verus!
