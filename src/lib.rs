//! Monte Carlo sampling of a two-dimensional fluid of hard disks in a
//! periodic rectangular box, in fixed-point coordinates.
//!
//! Every length is an integer number of length quanta: one unit of length
//! (the lattice spacing unit of the initializers) is `SCALE` quanta. Working
//! on integers keeps the geometry exact, so the overlap rule, the cell list
//! and the rollback of rejected moves are proved rather than approximated.
//!
//! - `geometry`: points, the periodic box, minimum-image distances, the cell list.
//! - `disks`: the disk record and the overlap rule.
//! - `state`: disks, box and cell list together, with the moves that keep
//!   them consistent and free of overlaps, and the lattice initializers.
//! - `thermo`: acceptance counters, area series, pair-distance histogram.
//! - `sample`: the displacement driver and the volume-move proposal.

pub mod disks;
pub mod geometry;
pub mod sample;
pub mod state;
pub mod thermo;

use vstd::prelude::*;

verus! {

/// Length quanta per unit of length.
pub const SCALE: i64 = 16384;

/// Largest box side, in quanta.
pub const MAX_SIDE: i64 = 268435456;

/// Largest coordinate magnitude accepted before wrapping, in quanta.
pub const MAX_COORD: i64 = 536870912;

} // verus!
