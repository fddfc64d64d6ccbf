//! The simulation state: disks, box and cell list, with the operations that
//! keep them consistent.

use vstd::prelude::*;

use crate::disks::{any_overlap, are_disks_overlapping, disks_overlap, Disk};
use crate::geometry::{
    box_ok, cell_index, cell_of, cells_near, create_grid, dist_sq_periodic, disks_in_box,
    grid_dim, grid_ok, in_box, lemma_close_points_in_near_cells, min_image, put_in_box_x,
    put_in_box_y, wrapped, Box, Grid, Position,
};
use crate::{MAX_SIDE, SCALE};
use vstd::math::abs;

verus! {

/// Disk `i` overlaps some other disk of the sequence.
pub open spec fn overlaps_other(ds: Seq<Disk>, i: int, b: Box) -> bool {
    exists|j: int| 0 <= j < ds.len() && j != i && #[trigger] disks_overlap(ds[i], ds[j], b)
}

/// The simulation state. The cell list is private: every change of the
/// disks goes through the methods below, which keep it in step.
pub struct State {
    disks: Vec<Disk>,
    sim_box: Box,
    grid: Grid,
}

impl State {
    /// The disks of the state.
    pub closed spec fn disks_view(&self) -> Seq<Disk> {
        self.disks@
    }

    /// The box of the state.
    pub closed spec fn box_view(&self) -> Box {
        self.sim_box
    }

    /// The cell list of the state.
    pub closed spec fn grid_view(&self) -> Grid {
        self.grid
    }

    /// The common radius of the disks.
    pub open spec fn radius(&self) -> int {
        self.disks_view()[0].radius as int
    }

    /// Number of grid cells along x and along y.
    pub open spec fn nx(&self) -> int {
        grid_dim(self.box_view().lx as int, self.radius())
    }

    pub open spec fn ny(&self) -> int {
        grid_dim(self.box_view().ly as int, self.radius())
    }

    /// Disks `i` and `j` are distinct and their cells lie in one 3 x 3 block.
    pub open spec fn neighbor_disk(&self, i: int, j: int) -> bool {
        &&& 0 <= j < self.disks_view().len()
        &&& j != i
        &&& cells_near(
            self.disks_view()[i].cell_id as int,
            self.disks_view()[j].cell_id as int,
            self.nx(),
            self.ny(),
        )
    }

    /// A valid box; disks of one radius inside it; a cell list that matches
    /// them (each disk's `cell_id` is the cell of its position, and each cell
    /// lists exactly its disks, once each).
    pub open spec fn consistent(&self) -> bool {
        &&& box_ok(self.box_view())
        &&& disks_in_box(self.disks_view(), self.box_view())
        &&& grid_ok(self.grid_view(), self.disks_view(), self.box_view(), self.radius())
    }

    /// A consistent state in which no two disks overlap.
    pub open spec fn inv(&self) -> bool {
        &&& self.consistent()
        &&& !any_overlap(self.disks_view(), self.box_view())
    }

    /// A state of the given disks in the given box, its cell list built and
    /// each disk's `cell_id` set.
    pub fn from_disks(disks: Vec<Disk>, sim_box: Box) -> (state: State)
        requires
            box_ok(sim_box),
            disks_in_box(disks@, sim_box),
        ensures
            state.consistent(),
            state.box_view() == sim_box,
            same_placement(state.disks_view(), disks@),
    {
        let mut disks = disks;
        let grid = create_grid(&mut disks, &sim_box);
        State { disks, sim_box, grid }
    }

    /// The disks, in index order.
    pub fn disks(&self) -> (r: &Vec<Disk>)
        ensures
            r@ == self.disks_view(),
    {
        &self.disks
    }

    /// The simulation box.
    pub fn sim_box(&self) -> (r: Box)
        ensures
            r == self.box_view(),
    {
        self.sim_box
    }

    /// The other disks of the cell of `disk_id` and of its adjacent cells,
    /// once each.
    pub fn get_neighbor_disks(&self, disk_id: usize) -> (r: Vec<usize>)
        requires
            self.consistent(),
            disk_id < self.disks_view().len(),
        ensures
            r@.no_duplicates(),
            forall|j: usize| #[trigger]
                r@.contains(j) <==> self.neighbor_disk(disk_id as int, j as int),
    {
        let ghost g = self.grid;
        let ghost ds = self.disks@;
        let ghost n = ds.len();
        let ghost nx = g.nx as int;
        let ghost ny = g.ny as int;
        let mut neighbor_disks: Vec<usize> = Vec::new();
        let current_cell_id: usize = self.disks[disk_id].cell_id;
        proof {
            assert(ds[disk_id as int].cell_id == current_cell_id);
            assert(g.cells@[current_cell_id as int].disk_ids@.contains(disk_id));
        }
        let home = &self.grid.cells[current_cell_id];
        let ghost home_ids = home.disk_ids@;
        let mut q: usize = 0;
        while q < home.disk_ids.len()
            invariant
                self.consistent(),
                g == self.grid,
                ds == self.disks@,
                n == ds.len(),
                nx == g.nx,
                ny == g.ny,
                disk_id < n,
                current_cell_id == ds[disk_id as int].cell_id,
                current_cell_id < g.cells@.len(),
                *home == g.cells@[current_cell_id as int],
                home_ids == home.disk_ids@,
                0 <= q <= home_ids.len(),
                neighbor_disks@.no_duplicates(),
                forall|k: int|
                    0 <= k < neighbor_disks@.len() ==> #[trigger] neighbor_disks@[k] < n
                        && ds[neighbor_disks@[k] as int].cell_id == current_cell_id
                        && neighbor_disks@[k] != disk_id,
                forall|t: int|
                    0 <= t < q && home_ids[t] != disk_id ==> neighbor_disks@.contains(
                        #[trigger] home_ids[t],
                    ),
                forall|k: int|
                    0 <= k < neighbor_disks@.len() ==> exists|t: int|
                        0 <= t < q && home_ids[t] == #[trigger] neighbor_disks@[k],
            decreases home_ids.len() - q,
        {
            let id: usize = home.disk_ids[q];
            if id != disk_id {
                let ghost before = neighbor_disks@;
                neighbor_disks.push(id);
                proof {
                    assert forall|k1: int, k2: int|
                        0 <= k1 < neighbor_disks@.len() && 0 <= k2 < neighbor_disks@.len() && k1
                            != k2 implies neighbor_disks@[k1] != neighbor_disks@[k2] by {
                        if k1 < before.len() && k2 < before.len() {
                            assert(before[k1] != before[k2]);
                        } else if k1 < before.len() {
                            let t = choose|t: int| 0 <= t < q && home_ids[t] == before[k1];
                            assert(home_ids[t] != home_ids[q as int]);
                        } else if k2 < before.len() {
                            let t = choose|t: int| 0 <= t < q && home_ids[t] == before[k2];
                            assert(home_ids[t] != home_ids[q as int]);
                        }
                    }
                    assert forall|t: int|
                        0 <= t < q + 1 && home_ids[t] != disk_id implies neighbor_disks@.contains(
                        #[trigger] home_ids[t],
                    ) by {
                        if t < q {
                            let k = choose|k: int|
                                0 <= k < before.len() && before[k] == home_ids[t];
                            assert(neighbor_disks@[k] == home_ids[t]);
                        } else {
                            assert(neighbor_disks@[before.len() as int] == home_ids[t]);
                        }
                    }
                    assert forall|k: int| 0 <= k < neighbor_disks@.len() implies exists|t: int|
                        0 <= t < q + 1 && home_ids[t] == #[trigger] neighbor_disks@[k] by {
                        if k < before.len() {
                            assert(before[k] == neighbor_disks@[k]);
                        } else {
                            assert(home_ids[q as int] == neighbor_disks@[k]);
                        }
                    }
                }
            }
            q = q + 1;
        }
        let neighbor_ids = &home.neighbor_ids;
        let ghost nbs = neighbor_ids@;
        let mut m: usize = 0;
        while m < neighbor_ids.len()
            invariant
                self.consistent(),
                g == self.grid,
                ds == self.disks@,
                n == ds.len(),
                nx == g.nx,
                ny == g.ny,
                disk_id < n,
                current_cell_id == ds[disk_id as int].cell_id,
                current_cell_id < g.cells@.len(),
                nbs == g.cells@[current_cell_id as int].neighbor_ids@,
                *neighbor_ids == g.cells@[current_cell_id as int].neighbor_ids,
                home_ids == g.cells@[current_cell_id as int].disk_ids@,
                0 <= m <= nbs.len(),
                neighbor_disks@.no_duplicates(),
                forall|k: int|
                    0 <= k < neighbor_disks@.len() ==> #[trigger] neighbor_disks@[k] < n
                        && neighbor_disks@[k] != disk_id && (ds[neighbor_disks@[k] as int].cell_id
                        == current_cell_id || nbs.subrange(0, m as int).contains(
                        ds[neighbor_disks@[k] as int].cell_id,
                    )),
                forall|t: int|
                    0 <= t < home_ids.len() && home_ids[t] != disk_id ==> neighbor_disks@.contains(
                        #[trigger] home_ids[t],
                    ),
                forall|s: int, t: int|
                    0 <= s < m && 0 <= t < g.cells@[nbs[s] as int].disk_ids@.len()
                        ==> neighbor_disks@.contains(
                        #[trigger] g.cells@[#[trigger] nbs[s] as int].disk_ids@[t],
                    ),
            decreases nbs.len() - m,
        {
            let cell_id: usize = neighbor_ids[m];
            let ids = &self.grid.cells[cell_id].disk_ids;
            let ghost cids = ids@;
            let ghost start = neighbor_disks@;
            proof {
                assert(cell_id < g.cells@.len());
                assert(cell_id != current_cell_id);
                assert(!nbs.subrange(0, m as int).contains(cell_id)) by {
                    if nbs.subrange(0, m as int).contains(cell_id) {
                        let t = choose|t: int|
                            0 <= t < m && nbs.subrange(0, m as int)[t] == cell_id;
                        assert(nbs[t] == nbs[m as int]);
                    }
                }
            }
            let mut t: usize = 0;
            while t < ids.len()
                invariant
                    self.consistent(),
                    g == self.grid,
                    ds == self.disks@,
                    n == ds.len(),
                    disk_id < n,
                    current_cell_id == ds[disk_id as int].cell_id,
                    current_cell_id < g.cells@.len(),
                    cell_id < g.cells@.len(),
                    cell_id != current_cell_id,
                    cell_id == nbs[m as int],
                    0 <= m < nbs.len(),
                    !nbs.subrange(0, m as int).contains(cell_id),
                    cids == ids@,
                    *ids == g.cells@[cell_id as int].disk_ids,
                    0 <= t <= cids.len(),
                    start.len() <= neighbor_disks@.len(),
                    neighbor_disks@.subrange(0, start.len() as int) == start,
                    neighbor_disks@.no_duplicates(),
                    forall|k: int|
                        0 <= k < start.len() ==> #[trigger] start[k] < n && (
                        ds[start[k] as int].cell_id == current_cell_id || nbs.subrange(
                            0,
                            m as int,
                        ).contains(ds[start[k] as int].cell_id)),
                    forall|k: int|
                        start.len() <= k < neighbor_disks@.len() ==> exists|u: int|
                            0 <= u < t && cids[u] == #[trigger] neighbor_disks@[k],
                    forall|u: int| 0 <= u < t ==> neighbor_disks@.contains(#[trigger] cids[u]),
                decreases cids.len() - t,
            {
                let id: usize = ids[t];
                let ghost before = neighbor_disks@;
                proof {
                    assert(ds[id as int].cell_id == cell_id);
                }
                neighbor_disks.push(id);
                proof {
                    assert forall|k1: int, k2: int|
                        0 <= k1 < neighbor_disks@.len() && 0 <= k2 < neighbor_disks@.len() && k1
                            != k2 implies neighbor_disks@[k1] != neighbor_disks@[k2] by {
                        if k1 < before.len() && k2 < before.len() {
                            assert(before[k1] != before[k2]);
                        } else if k1 < before.len() || k2 < before.len() {
                            let k = if k1 < before.len() {
                                k1
                            } else {
                                k2
                            };
                            if k < start.len() {
                                assert(start[k] == before[k]);
                                assert(ds[start[k] as int].cell_id != cell_id);
                            } else {
                                let u = choose|u: int| 0 <= u < t && cids[u] == before[k];
                                assert(cids[u] != cids[t as int]);
                            }
                        }
                    }
                    assert forall|k: int|
                        start.len() <= k < neighbor_disks@.len() implies exists|u: int|
                        0 <= u < t + 1 && cids[u] == #[trigger] neighbor_disks@[k] by {
                        if k < before.len() {
                            assert(before[k] == neighbor_disks@[k]);
                        } else {
                            assert(cids[t as int] == neighbor_disks@[k]);
                        }
                    }
                    assert forall|u: int| 0 <= u < t + 1 implies neighbor_disks@.contains(
                        #[trigger] cids[u],
                    ) by {
                        if u < t {
                            let k = choose|k: int| 0 <= k < before.len() && before[k] == cids[u];
                            assert(neighbor_disks@[k] == cids[u]);
                        } else {
                            assert(neighbor_disks@[before.len() as int] == cids[u]);
                        }
                    }
                    assert(neighbor_disks@.subrange(0, start.len() as int) =~= start);
                }
                t = t + 1;
            }
            proof {
                assert forall|k: int| 0 <= k < neighbor_disks@.len() implies #[trigger] neighbor_disks@[k] < n
                    && neighbor_disks@[k] != disk_id && (ds[neighbor_disks@[k] as int].cell_id
                    == current_cell_id || nbs.subrange(0, m + 1).contains(
                    ds[neighbor_disks@[k] as int].cell_id,
                )) by {
                    let cc = ds[neighbor_disks@[k] as int].cell_id;
                    if k < start.len() {
                        assert(neighbor_disks@[k] == start[k]);
                        if cc != current_cell_id {
                            let w = choose|w: int|
                                0 <= w < m && nbs.subrange(0, m as int)[w] == cc;
                            assert(nbs.subrange(0, m + 1)[w] == cc);
                        }
                    } else {
                        let u = choose|u: int| 0 <= u < t && cids[u] == neighbor_disks@[k];
                        assert(cc == cell_id);
                        assert(nbs.subrange(0, m + 1)[m as int] == cc);
                    }
                }
                assert forall|t2: int|
                    0 <= t2 < home_ids.len() && home_ids[t2] != disk_id implies neighbor_disks@.contains(
                    #[trigger] home_ids[t2],
                ) by {
                    let k = choose|k: int| 0 <= k < start.len() && start[k] == home_ids[t2];
                    assert(neighbor_disks@[k] == home_ids[t2]);
                }
                assert forall|s: int, t2: int|
                    0 <= s < m + 1 && 0 <= t2 < g.cells@[nbs[s] as int].disk_ids@.len()
                        implies neighbor_disks@.contains(
                    #[trigger] g.cells@[#[trigger] nbs[s] as int].disk_ids@[t2],
                ) by {
                    if s < m {
                        let x = g.cells@[nbs[s] as int].disk_ids@[t2];
                        let k = choose|k: int| 0 <= k < start.len() && start[k] == x;
                        assert(neighbor_disks@[k] == x);
                    }
                }
            }
            m = m + 1;
        }
        proof {
            assert forall|j: usize| #[trigger]
                neighbor_disks@.contains(j) <==> self.neighbor_disk(disk_id as int, j as int) by {
                if neighbor_disks@.contains(j) {
                    let k = choose|k: int|
                        0 <= k < neighbor_disks@.len() && neighbor_disks@[k] == j;
                    let cc = ds[j as int].cell_id;
                    if cc != current_cell_id {
                        assert(nbs.subrange(0, m as int) =~= nbs);
                        let w = choose|w: int| 0 <= w < nbs.len() && nbs[w] == cc;
                        assert(cells_near(current_cell_id as int, nbs[w] as int, nx, ny));
                    } else {
                        lemma_near_self(current_cell_id as int, nx, ny);
                    }
                }
                if self.neighbor_disk(disk_id as int, j as int) {
                    let cc = ds[j as int].cell_id;
                    assert(g.cells@[cc as int].disk_ids@.contains(j));
                    let t2 = choose|t2: int|
                        0 <= t2 < g.cells@[cc as int].disk_ids@.len()
                            && g.cells@[cc as int].disk_ids@[t2] == j;
                    if cc == current_cell_id {
                        assert(home_ids[t2] == j);
                    } else {
                        assert(nbs.contains(cc));
                        let s = choose|s: int| 0 <= s < nbs.len() && nbs[s] == cc;
                        assert(g.cells@[nbs[s] as int].disk_ids@[t2] == j);
                    }
                }
            }
        }
        neighbor_disks
    }
}

impl State {
    /// Whether disk `disk_id` overlaps any other disk; only the disks of its
    /// own and adjacent cells are examined.
    pub fn is_disk_overlapping(&self, disk_id: usize) -> (r: bool)
        requires
            self.consistent(),
            disk_id < self.disks_view().len(),
        ensures
            r == overlaps_other(self.disks_view(), disk_id as int, self.box_view()),
    {
        let neighbors = self.get_neighbor_disks(disk_id);
        let ghost ds = self.disks@;
        let mut k: usize = 0;
        while k < neighbors.len()
            invariant
                self.consistent(),
                ds == self.disks@,
                disk_id < ds.len(),
                0 <= k <= neighbors@.len(),
                forall|j: usize| #[trigger]
                    neighbors@.contains(j) <==> self.neighbor_disk(disk_id as int, j as int),
                forall|t: int|
                    0 <= t < k ==> !disks_overlap(
                        ds[disk_id as int],
                        ds[#[trigger] neighbors@[t] as int],
                        self.sim_box,
                    ),
            decreases neighbors@.len() - k,
        {
            let neighbor_id: usize = neighbors[k];
            proof {
                assert(neighbors@.contains(neighbor_id));
            }
            if are_disks_overlapping(&self.disks[disk_id], &self.disks[neighbor_id], &self.sim_box) {
                return true;
            }
            k = k + 1;
        }
        proof {
            if overlaps_other(ds, disk_id as int, self.sim_box) {
                let j = choose|j: int|
                    0 <= j < ds.len() && j != disk_id && #[trigger] disks_overlap(
                        ds[disk_id as int],
                        ds[j],
                        self.sim_box,
                    );
                self.lemma_overlap_is_neighbor(disk_id as int, j);
                assert(ds.len() == self.disks.len());
                let ju = j as usize;
                assert(ju as int == j);
                assert(neighbors@.contains(ju));
                let t = choose|t: int| 0 <= t < neighbors@.len() && neighbors@[t] == j as usize;
            }
        }
        false
    }

    /// Two overlapping disks of a consistent state lie in adjacent cells.
    proof fn lemma_overlap_is_neighbor(&self, i: int, j: int)
        requires
            self.consistent(),
            0 <= i < self.disks@.len(),
            0 <= j < self.disks@.len(),
            i != j,
            disks_overlap(self.disks@[i], self.disks@[j], self.sim_box),
        ensures
            self.neighbor_disk(i, j),
    {
        let r = self.disks@[0].radius as int;
        assert(self.disks@[i].radius == r && self.disks@[j].radius == r);
        assert((r + r) * (r + r) <= 9 * r * r) by (nonlinear_arith)
            requires
                r >= 1,
        ;
        lemma_close_points_in_near_cells(
            self.disks@[i].position,
            self.disks@[j].position,
            self.sim_box,
            r,
        );
    }

    /// Whether any two disks overlap, by one cell-list query per disk.
    pub fn are_any_disks_overlapping(&self) -> (r: bool)
        requires
            self.consistent(),
        ensures
            r == any_overlap(self.disks_view(), self.box_view()),
    {
        let n: usize = self.disks.len();
        for disk_id in 0..n
            invariant
                self.consistent(),
                n == self.disks@.len(),
                forall|i: int| 0 <= i < disk_id ==> !overlaps_other(self.disks@, i, self.sim_box),
        {
            if self.is_disk_overlapping(disk_id) {
                return true;
            }
        }
        proof {
            if any_overlap(self.disks@, self.sim_box) {
                let (i, j) = choose|i: int, j: int|
                    0 <= i < self.disks@.len() && 0 <= j < self.disks@.len() && i != j
                        && #[trigger] disks_overlap(self.disks@[i], self.disks@[j], self.sim_box);
                assert(overlaps_other(self.disks@, i, self.sim_box));
            }
        }
        false
    }

    /// Moves disk `disk_id` to `(new_x, new_y)` wrapped into the box, and
    /// moves it to its new cell when that cell differs from its old one.
    pub fn update_disk_coordinates(&mut self, disk_id: usize, new_x: i64, new_y: i64)
        requires
            old(self).consistent(),
            disk_id < old(self).disks_view().len(),
        ensures
            final(self).consistent(),
            final(self).box_view() == old(self).box_view(),
            final(self).disks_view() == old(self).disks_view().update(
                disk_id as int,
                moved_disk(
                    old(self).disks_view()[disk_id as int],
                    new_x as int,
                    new_y as int,
                    old(self).box_view(),
                ),
            ),
            cell_move_frame(
                old(self).grid_view(),
                final(self).grid_view(),
                disk_id,
                old(self).disks_view()[disk_id as int].cell_id as int,
                final(self).disks_view()[disk_id as int].cell_id as int,
            ),
    {
        let ghost ds0 = self.disks@;
        let ghost g0 = self.grid;
        let x: i64 = put_in_box_x(new_x, &self.sim_box);
        let y: i64 = put_in_box_y(new_y, &self.sim_box);
        let pos = Position { x, y };
        let new_cell_id: usize = cell_index(&pos, &self.sim_box, self.grid.nx, self.grid.ny);
        let old_cell_id: usize = self.disks[disk_id].cell_id;
        if new_cell_id != old_cell_id {
            let ghost old_ids = g0.cells@[old_cell_id as int].disk_ids@;
            let ghost new_ids = g0.cells@[new_cell_id as int].disk_ids@;
            let mut p: usize = 0;
            proof {
                assert(old_ids.contains(disk_id));
                assert(old_ids.len() == g0.cells@[old_cell_id as int].disk_ids.len());
            }
            while self.grid.cells[old_cell_id].disk_ids[p] != disk_id
                invariant
                    self.grid == g0,
                    old_cell_id < g0.cells@.len(),
                    0 <= p < old_ids.len(),
                    old_ids == g0.cells@[old_cell_id as int].disk_ids@,
                    old_ids.contains(disk_id),
                    old_ids.len() <= usize::MAX,
                    forall|t: int| 0 <= t < p ==> old_ids[t] != disk_id,
                decreases old_ids.len() - p,
            {
                proof {
                    let t = choose|t: int| 0 <= t < old_ids.len() && old_ids[t] == disk_id;
                    assert(t > p);
                }
                p = p + 1;
            }
            self.grid.cells[old_cell_id].disk_ids.remove(p);
            self.grid.cells[new_cell_id].disk_ids.push(disk_id);
            self.disks[disk_id].cell_id = new_cell_id;
            self.disks[disk_id].position = pos;
            proof {
                assert(g0.cells@[old_cell_id as int].disk_ids@[p as int] == disk_id);
                assert(cell_move_frame(g0, self.grid, disk_id, old_cell_id as int, new_cell_id as int));
                self.lemma_move_between_cells(
                    ds0,
                    g0,
                    disk_id as int,
                    old_cell_id as int,
                    new_cell_id as int,
                    p as int,
                );
            }
        } else {
            self.disks[disk_id].position = pos;
            proof {
                assert(self.grid == g0);
                assert forall|c: int| 0 <= c < g0.cells@.len() implies {
                    let ids = (#[trigger] g0.cells@[c]).disk_ids@;
                    forall|k: int|
                        0 <= k < ids.len() ==> 0 <= #[trigger] ids[k] < self.disks@.len() && self.disks@[ids[k] as int].cell_id
                            == c
                } by {
                    let ids = g0.cells@[c].disk_ids@;
                    assert forall|k: int| 0 <= k < ids.len() implies 0 <= #[trigger] ids[k] < self.disks@.len() && self.disks@[ids[k] as int].cell_id
                            == c by {
                        assert(ds0[ids[k] as int].cell_id == c);
                    }
                }
            }
        }
        proof {
            assert(self.disks@ =~= ds0.update(
                disk_id as int,
                moved_disk(ds0[disk_id as int], new_x as int, new_y as int, self.sim_box),
            ));
            assert(self.disks@[0].radius == ds0[0].radius);
        }
    }

    proof fn lemma_move_between_cells(
        &self,
        ds0: Seq<Disk>,
        g0: Grid,
        i: int,
        oc: int,
        nc: int,
        p: int,
    )
        requires
            ds0.len() == self.disks@.len(),
            0 <= i < ds0.len(),
            0 <= oc < g0.cells@.len(),
            0 <= nc < g0.cells@.len(),
            oc != nc,
            ds0[i].cell_id == oc,
            self.disks@[i].cell_id == nc,
            forall|j: int| 0 <= j < ds0.len() && j != i ==> self.disks@[j] == ds0[j],
            self.grid.nx == g0.nx,
            self.grid.ny == g0.ny,
            self.grid.cells@.len() == g0.cells@.len(),
            0 <= p < g0.cells@[oc].disk_ids@.len(),
            g0.cells@[oc].disk_ids@[p] == i,
            self.grid.cells@[oc].disk_ids@ == g0.cells@[oc].disk_ids@.remove(p),
            self.grid.cells@[nc].disk_ids@ == g0.cells@[nc].disk_ids@.push(i as usize),
            self.grid.cells@[oc].neighbor_ids == g0.cells@[oc].neighbor_ids,
            self.grid.cells@[nc].neighbor_ids == g0.cells@[nc].neighbor_ids,
            forall|c: int|
                0 <= c < g0.cells@.len() && c != oc && c != nc ==> self.grid.cells@[c]
                    == g0.cells@[c],
            crate::geometry::members_ok(g0, ds0),
            crate::geometry::neighbors_ok(g0),
        ensures
            crate::geometry::members_ok(self.grid, self.disks@),
            crate::geometry::neighbors_ok(self.grid),
    {
        let ds = self.disks@;
        let g = self.grid;
        assert forall|c: int| 0 <= c < g.cells@.len() implies {
            let ids = (#[trigger] g.cells@[c]).disk_ids@;
            &&& ids.no_duplicates()
            &&& forall|k: int|
                0 <= k < ids.len() ==> 0 <= #[trigger] ids[k] < ds.len() && ds[ids[k] as int].cell_id
                    == c
        } by {
            let ids = g.cells@[c].disk_ids@;
            let ids0 = g0.cells@[c].disk_ids@;
            assert(ids0.no_duplicates());
            if c == oc {
                assert forall|k: int| 0 <= k < ids.len() implies 0 <= #[trigger] ids[k] < ds.len() && ds[ids[k] as int].cell_id
                    == c by {
                    let k0 = if k < p { k } else { k + 1 };
                    assert(ids[k] == ids0[k0]);
                    assert(ids0[k0] != i) by {
                        assert(k0 != p);
                    }
                }
                assert forall|k1: int, k2: int|
                    0 <= k1 < ids.len() && 0 <= k2 < ids.len() && k1 != k2 implies ids[k1] != ids[k2] by {
                    let a = if k1 < p { k1 } else { k1 + 1 };
                    let b = if k2 < p { k2 } else { k2 + 1 };
                    assert(ids[k1] == ids0[a] && ids[k2] == ids0[b]);
                }
            } else if c == nc {
                assert forall|k: int| 0 <= k < ids0.len() implies ids0[k] != i by {
                    assert(ds0[ids0[k] as int].cell_id == c);
                }
                assert forall|k: int| 0 <= k < ids.len() implies 0 <= #[trigger] ids[k] < ds.len() && ds[ids[k] as int].cell_id
                    == c by {
                    if k < ids0.len() {
                        assert(ids[k] == ids0[k]);
                        assert(ids0[k] != i);
                    }
                }
                assert forall|k1: int, k2: int|
                    0 <= k1 < ids.len() && 0 <= k2 < ids.len() && k1 != k2 implies ids[k1] != ids[k2] by {
                    if k1 < ids0.len() && k2 < ids0.len() {
                    } else if k1 < ids0.len() {
                        assert(ids0[k1] != i);
                    } else if k2 < ids0.len() {
                        assert(ids0[k2] != i);
                    }
                }
            } else {
                assert(ids == ids0);
                assert forall|k: int| 0 <= k < ids.len() implies 0 <= #[trigger] ids[k] < ds.len() && ds[ids[k] as int].cell_id
                    == c by {
                    assert(ds0[ids0[k] as int].cell_id == c);
                    assert(ids0[k] != i) by {
                        assert(c != oc);
                    }
                }
            }
        }
        assert forall|j: int|
            0 <= j < ds.len() implies ds[j].cell_id < g.cells@.len() && g.cells@[ds[j].cell_id as int].disk_ids@.contains(
            j as usize,
        ) by {
            assert(self.disks@.len() == self.disks.len());
            let ju = j as usize;
            assert(ju as int == j);
            if j == i {
                assert(g.cells@[nc].disk_ids@[g0.cells@[nc].disk_ids@.len() as int] == i);
            } else {
                let c = ds0[j].cell_id as int;
                let ids0 = g0.cells@[c].disk_ids@;
                assert(ids0.contains(ju));
                let k = choose|k: int| 0 <= k < ids0.len() && ids0[k] == ju;
                if c == oc {
                    assert(k != p);
                    let k1 = if k < p { k } else { k - 1 };
                    assert(g.cells@[c].disk_ids@[k1] == j);
                } else if c == nc {
                    assert(g.cells@[c].disk_ids@[k] == j);
                } else {
                    assert(g.cells@[c].disk_ids@[k] == j);
                }
            }
        }
        assert forall|c: int| 0 <= c < g.cells@.len() implies crate::geometry::neighbor_list_ok(
            (#[trigger] g.cells@[c]).neighbor_ids@,
            c,
            g.nx as int,
            g.ny as int,
        ) by {
            assert(g.cells@[c].neighbor_ids == g0.cells@[c].neighbor_ids);
        }
    }

    /// Rebuilds the cell list from the disks and the box.
    pub fn update_grid(&mut self)
        requires
            box_ok(old(self).box_view()),
            disks_in_box(old(self).disks_view(), old(self).box_view()),
        ensures
            final(self).consistent(),
            final(self).box_view() == old(self).box_view(),
            same_placement(final(self).disks_view(), old(self).disks_view()),
            crate::geometry::grid_canonical(final(self).grid_view()),
    {
        self.grid = create_grid(&mut self.disks, &self.sim_box);
        proof {
            assert(self.disks@[0].radius == old(self).disks@[0].radius);
        }
    }
}

impl State {
    /// One displacement trial: disk `disk_index` moves by `(dx, dy)` (wrapped
    /// into the box); the move is undone if the disk then overlaps another.
    /// Returns whether the move was kept.
    pub fn nvt_trial(&mut self, disk_index: usize, dx: i64, dy: i64) -> (accepted: bool)
        requires
            old(self).inv(),
            disk_index < old(self).disks_view().len(),
            -MAX_SIDE <= dx <= MAX_SIDE,
            -MAX_SIDE <= dy <= MAX_SIDE,
        ensures
            final(self).inv(),
            final(self).box_view() == old(self).box_view(),
            accepted == !overlaps_other(
                displaced(
                    old(self).disks_view(),
                    disk_index as int,
                    dx as int,
                    dy as int,
                    old(self).box_view(),
                ),
                disk_index as int,
                old(self).box_view(),
            ),
            final(self).disks_view() == if accepted {
                displaced(
                    old(self).disks_view(),
                    disk_index as int,
                    dx as int,
                    dy as int,
                    old(self).box_view(),
                )
            } else {
                old(self).disks_view()
            },
    {
        let ghost ds0 = self.disks@;
        let old_x: i64 = self.disks[disk_index].position.x;
        let old_y: i64 = self.disks[disk_index].position.y;
        self.update_disk_coordinates(disk_index, old_x + dx, old_y + dy);
        let overlaps = self.is_disk_overlapping(disk_index);
        if overlaps {
            self.update_disk_coordinates(disk_index, old_x, old_y);
            proof {
                let d0 = ds0[disk_index as int];
                lemma_small_mod(old_x as int, self.sim_box.lx as int);
                lemma_small_mod(old_y as int, self.sim_box.ly as int);
                assert(moved_disk(self.disks@[disk_index as int], old_x as int, old_y as int, self.sim_box) == d0);
                assert(self.disks@ =~= ds0);
            }
            false
        } else {
            proof {
                lemma_single_move_keeps_apart(ds0, self.disks@, disk_index as int, self.sim_box);
            }
            true
        }
    }
}

impl State {
    /// `n_disks` disks of radius one half on a square lattice of spacing two,
    /// `ceil(sqrt(n_disks))` sites to a column, in a box of side twenty.
    pub fn create_simple_state(n_disks: u32) -> (state: State)
        requires
            1 <= n_disks <= 100,
        ensures
            state.inv(),
            state.box_view() == (simple_box()),
            state.disks_view().len() == n_disks,
            forall|k: int|
                0 <= k < n_disks ==> (#[trigger] state.disks_view()[k]).position == square_site(
                    k,
                    square_side(n_disks as int),
                ) && state.disks_view()[k].radius == SCALE / 2,
    {
        let radius: i64 = SCALE / 2;
        let mut n_per_side: u32 = 0;
        while n_per_side * n_per_side < n_disks
            invariant
                1 <= n_disks <= 100,
                n_per_side <= 10,
                n_per_side * n_per_side <= 100,
                n_per_side == 0 || (n_per_side - 1) * (n_per_side - 1) < n_disks,
            decreases 10 - n_per_side,
        {
            assert(n_per_side < 10) by (nonlinear_arith)
                requires
                    n_per_side * n_per_side < n_disks <= 100,
            ;
            assert((n_per_side + 1) * (n_per_side + 1) <= 100) by (nonlinear_arith)
                requires
                    n_per_side < 10,
            ;
            n_per_side = n_per_side + 1;
        }
        proof {
            lemma_square_side(n_per_side as int, n_disks as int);
        }
        let ghost side = n_per_side as int;
        let mut disks: Vec<Disk> = Vec::new();
        for k in 0..n_disks
            invariant
                1 <= n_disks <= 100,
                side == square_side(n_disks as int),
                side == n_per_side,
                1 <= side <= 10,
                side * side >= n_disks,
                radius == SCALE / 2,
                disks@.len() == k,
                forall|t: int|
                    0 <= t < k ==> (#[trigger] disks@[t]).position == square_site(t, side)
                        && disks@[t].radius == radius,
        {
            let i: u32 = k / n_per_side;
            let j: u32 = k % n_per_side;
            proof {
                assert(i < 10) by (nonlinear_arith)
                    requires
                        k < n_disks <= side * side,
                        1 <= side <= 10,
                        i as int == k as int / side,
                ;
            }
            let position = Position { x: 2 * SCALE * (i as i64), y: 2 * SCALE * (j as i64) };
            disks.push(Disk { position, radius, cell_id: 0 });
        }
        let sim_box = Box { lx: 20 * SCALE, ly: 20 * SCALE };
        proof {
            assert forall|t: int| 0 <= t < disks@.len() implies {
                &&& (#[trigger] disks@[t]).radius == disks@[0].radius
                &&& in_box(disks@[t].position, sim_box)
            } by {
                lemma_square_site_range(t, side, n_disks as int);
            }
        }
        let grid = create_grid(&mut disks, &sim_box);
        let state = State { disks, sim_box, grid };
        proof {
            assert forall|t: int| 0 <= t < n_disks implies (#[trigger] state.disks@[t]).position
                == square_site(t, side) && state.disks@[t].radius == SCALE / 2 by {}
            if any_overlap(state.disks@, sim_box) {
                let (a, b) = choose|a: int, b: int|
                    0 <= a < state.disks@.len() && 0 <= b < state.disks@.len() && a != b
                        && #[trigger] disks_overlap(state.disks@[a], state.disks@[b], sim_box);
                lemma_square_sites_apart(a, b, side, n_disks as int);
            }
        }
        state
    }
}

impl State {
    /// Disks of radius one half on a row-offset (hexagonal) lattice of
    /// `n_row` rows of `n_column` disks in the box `(lx, ly)`: column spacing
    /// `lx / n_column`, row spacing `ly / n_row`, odd rows shifted by half a
    /// column. `None` when that lattice already has overlapping disks.
    pub fn hexagonal_packing(n_row: u32, n_column: u32, lx: i64, ly: i64) -> (r: Option<State>)
        requires
            n_row >= 2,
            n_column >= 2,
            n_row % 2 == 0,
            n_column % 2 == 0,
            n_row * n_column <= u32::MAX,
            box_ok(Box { lx, ly }),
        ensures
            r is Some <==> !any_overlap(
                hex_disks(n_row as int, n_column as int, lx as int, ly as int),
                Box { lx, ly },
            ),
            r matches Some(st) ==> {
                &&& st.inv()
                &&& st.box_view() == (Box { lx, ly })
                &&& same_placement(
                    st.disks_view(),
                    hex_disks(n_row as int, n_column as int, lx as int, ly as int),
                )
            },
    {
        let number_of_disks: u32 = n_row * n_column;
        let radius: i64 = SCALE / 2;
        let dx: i64 = lx / (n_column as i64);
        let dy: i64 = ly / (n_row as i64);
        let ghost target = hex_disks(n_row as int, n_column as int, lx as int, ly as int);
        let mut disks: Vec<Disk> = Vec::new();
        for k in 0..number_of_disks
            invariant
                number_of_disks == n_row * n_column,
                n_row >= 2,
                n_column >= 2,
                box_ok(Box { lx, ly }),
                radius == SCALE / 2,
                dx == lx as int / (n_column as int),
                dy == ly as int / (n_row as int),
                target == hex_disks(n_row as int, n_column as int, lx as int, ly as int),
                disks@.len() == k,
                forall|t: int|
                    0 <= t < k ==> (#[trigger] disks@[t]).position == target[t].position
                        && disks@[t].radius == radius,
        {
            let row: u32 = k / n_column;
            let column: u32 = k % n_column;
            proof {
                lemma_hex_site_range(k as int, n_row as int, n_column as int, lx as int, ly as int);
            }
            let mut current_x: i64 = dx / 4 + (column as i64) * dx;
            if row % 2 == 1 {
                current_x = current_x + dx / 2;
            }
            let current_y: i64 = dy / 2 + (row as i64) * dy;
            let position = Position { x: current_x, y: current_y };
            disks.push(Disk { position, radius, cell_id: 0 });
        }
        let sim_box = Box { lx, ly };
        proof {
            assert(n_row * n_column >= 4) by (nonlinear_arith)
                requires
                    n_row >= 2,
                    n_column >= 2,
            ;
            assert(disks@.len() >= 1);
            assert forall|t: int| 0 <= t < disks@.len() implies {
                &&& (#[trigger] disks@[t]).radius == disks@[0].radius
                &&& in_box(disks@[t].position, sim_box)
            } by {
                lemma_hex_site_range(t, n_row as int, n_column as int, lx as int, ly as int);
                assert(target[t].position == hex_site(t, n_row as int, n_column as int, lx as int, ly as int));
            }
        }
        let grid = create_grid(&mut disks, &sim_box);
        let state = State { disks, sim_box, grid };
        proof {
            lemma_same_placement_overlap(state.disks@, target, sim_box);
        }
        if state.are_any_disks_overlapping() {
            None
        } else {
            Some(state)
        }
    }
}

impl State {
    /// Side length along the chosen axis after adding `delta_v` to the area,
    /// the other side kept: `side + delta_v / other`, the quotient rounded
    /// toward zero, so that the area changes by at most `|delta_v|`. `None`
    /// when that is not a valid side (a non-positive scaling factor in
    /// particular).
    pub fn propose_volume_change(&self, along_x: bool, delta_v: i64) -> (r: Option<i64>)
        requires
            box_ok(self.box_view()),
            delta_v > i64::MIN,
        ensures
            r == (if 1 <= proposed_side(self.box_view(), along_x, delta_v as int) <= MAX_SIDE {
                Some(proposed_side(self.box_view(), along_x, delta_v as int) as i64)
            } else {
                None
            }),
            r matches Some(side) ==> -abs(delta_v as int) <= area_after(
                self.box_view(),
                along_x,
                side as int,
            ) - self.box_view().lx * self.box_view().ly <= abs(delta_v as int),
    {
        let (side, other) = if along_x {
            (self.sim_box.lx, self.sim_box.ly)
        } else {
            (self.sim_box.ly, self.sim_box.lx)
        };
        let q: i64 = if delta_v >= 0 {
            ((delta_v as u64) / (other as u64)) as i64
        } else {
            -((((-delta_v) as u64) / (other as u64)) as i64)
        };
        proof {
            lemma_truncated_quotient(delta_v as int, other as int);
        }
        if q > MAX_SIDE {
            None
        } else {
            let new_side: i64 = side + q;
            if 1 <= new_side && new_side <= MAX_SIDE {
                proof {
                    assert(area_after(self.sim_box, along_x, new_side as int)
                        - self.sim_box.lx * self.sim_box.ly == q * other) by (nonlinear_arith)
                        requires
                            new_side == side + q,
                            along_x ==> side == self.sim_box.lx && other == self.sim_box.ly,
                            !along_x ==> side == self.sim_box.ly && other == self.sim_box.lx,
                            area_after(self.sim_box, along_x, new_side as int) == if along_x {
                                new_side * self.sim_box.ly
                            } else {
                                self.sim_box.lx * new_side
                            },
                    ;
                }
                Some(new_side)
            } else {
                None
            }
        }
    }

    /// A volume move: the side along the chosen axis becomes `new_side` and
    /// every coordinate along that axis scales with it. The move is kept when
    /// the scaled disks overlap nowhere; otherwise the state is left exactly as
    /// it was. Returns whether the move was kept.
    pub fn rescale_box(&mut self, along_x: bool, new_side: i64) -> (accepted: bool)
        requires
            old(self).inv(),
            1 <= new_side <= MAX_SIDE,
        ensures
            final(self).inv(),
            accepted == !any_overlap(
                scaled_disks(old(self).disks_view(), along_x, old(self).box_view(), new_side as int),
                resized_box(old(self).box_view(), along_x, new_side as int),
            ),
            accepted ==> final(self).box_view() == resized_box(
                old(self).box_view(),
                along_x,
                new_side as int,
            ) && same_placement(
                final(self).disks_view(),
                scaled_disks(old(self).disks_view(), along_x, old(self).box_view(), new_side as int),
            ),
            !accepted ==> final(self).box_view() == old(self).box_view() && final(self).disks_view()
                == old(self).disks_view(),
    {
        let old_side: i64 = if along_x {
            self.sim_box.lx
        } else {
            self.sim_box.ly
        };
        let new_box = if along_x {
            Box { lx: new_side, ly: self.sim_box.ly }
        } else {
            Box { lx: self.sim_box.lx, ly: new_side }
        };
        let ghost target = scaled_disks(self.disks@, along_x, self.sim_box, new_side as int);
        let n: usize = self.disks.len();
        let mut disks: Vec<Disk> = Vec::new();
        for k in 0..n
            invariant
                self.inv(),
                n == self.disks@.len(),
                1 <= new_side <= MAX_SIDE,
                old_side == (if along_x { self.sim_box.lx } else { self.sim_box.ly }),
                new_box == resized_box(self.sim_box, along_x, new_side as int),
                target == scaled_disks(self.disks@, along_x, self.sim_box, new_side as int),
                disks@.len() == k,
                forall|t: int| 0 <= t < k ==> #[trigger] disks@[t] == target[t],
                forall|t: int| 0 <= t < k ==> in_box((#[trigger] disks@[t]).position, new_box),
        {
            let d: Disk = self.disks[k];
            proof {
                assert(in_box(d.position, self.sim_box));
                lemma_scaled_coordinate(
                    if along_x { d.position.x as int } else { d.position.y as int },
                    old_side as int,
                    new_side as int,
                );
            }
            let position = if along_x {
                Position { x: d.position.x * new_side / old_side, y: d.position.y }
            } else {
                Position { x: d.position.x, y: d.position.y * new_side / old_side }
            };
            disks.push(Disk { position, radius: d.radius, cell_id: d.cell_id });
        }
        proof {
            assert(disks@[0] == target[0]);
            assert forall|t: int| 0 <= t < disks@.len() implies {
                &&& (#[trigger] disks@[t]).radius == disks@[0].radius
                &&& in_box(disks@[t].position, new_box)
            } by {
                assert(disks@[t] == target[t]);
            }
        }
        let grid = create_grid(&mut disks, &new_box);
        let candidate = State { disks, sim_box: new_box, grid };
        proof {
            lemma_same_placement_overlap(candidate.disks@, target, new_box);
        }
        if candidate.are_any_disks_overlapping() {
            false
        } else {
            *self = candidate;
            true
        }
    }
}

/// The box with its side along the chosen axis set to `new`.
pub open spec fn resized_box(b: Box, along_x: bool, new: int) -> Box {
    if along_x {
        Box { lx: new as i64, ly: b.ly }
    } else {
        Box { lx: b.lx, ly: new as i64 }
    }
}

/// A coordinate of a box of side `old` carried to a box of side `new`:
/// `floor(v * new / old)`.
pub open spec fn scaled_coordinate(v: int, old: int, new: int) -> int {
    (v * new) / old
}

/// The disk with its coordinate along the chosen axis scaled with the box.
pub open spec fn scaled_disk(d: Disk, along_x: bool, b: Box, new: int) -> Disk {
    let p = if along_x {
        Position {
            x: scaled_coordinate(d.position.x as int, b.lx as int, new) as i64,
            y: d.position.y,
        }
    } else {
        Position {
            x: d.position.x,
            y: scaled_coordinate(d.position.y as int, b.ly as int, new) as i64,
        }
    };
    Disk { position: p, radius: d.radius, cell_id: d.cell_id }
}

pub open spec fn scaled_disks(ds: Seq<Disk>, along_x: bool, b: Box, new: int) -> Seq<Disk> {
    Seq::new(ds.len(), |k: int| scaled_disk(ds[k], along_x, b, new))
}

/// `a / o` rounded toward zero, for `o >= 1`.
pub open spec fn truncated_quotient(a: int, o: int) -> int {
    if a >= 0 {
        a / o
    } else {
        -((-a) / o)
    }
}

/// `side + delta_v / other`, rounded toward zero: the side along the chosen
/// axis that changes the area by `delta_v` as nearly as whole quanta allow,
/// never by more.
pub open spec fn proposed_side(b: Box, along_x: bool, delta_v: int) -> int {
    if along_x {
        b.lx + truncated_quotient(delta_v, b.ly as int)
    } else {
        b.ly + truncated_quotient(delta_v, b.lx as int)
    }
}

/// The box area after the side along the chosen axis becomes `side`.
pub open spec fn area_after(b: Box, along_x: bool, side: int) -> int {
    if along_x {
        side * b.ly
    } else {
        b.lx * side
    }
}

proof fn lemma_truncated_quotient(a: int, o: int)
    requires
        o >= 1,
    ensures
        -abs(a) <= truncated_quotient(a, o) * o <= abs(a),
        -abs(a) <= truncated_quotient(a, o) <= abs(a),
{
    let m: int = abs(a) as int;
    vstd::arithmetic::div_mod::lemma_fundamental_div_mod(m, o);
    vstd::arithmetic::div_mod::lemma_mod_bound(m, o);
    assert(0 <= (m / o) * o <= m && m / o <= m) by (nonlinear_arith)
        requires
            m == o * (m / o) + m % o,
            0 <= m % o,
            o >= 1,
            m >= 0,
    ;
    let q = m / o;
    if a >= 0 {
        assert(truncated_quotient(a, o) == q);
    } else {
        assert(truncated_quotient(a, o) == -q);
        assert((-q) * o == -(q * o)) by (nonlinear_arith);
    }
}

proof fn lemma_scaled_coordinate(v: int, old: int, new: int)
    requires
        0 <= v < old,
        1 <= old <= MAX_SIDE,
        1 <= new <= MAX_SIDE,
    ensures
        0 <= v * new <= MAX_SIDE * MAX_SIDE,
        0 <= scaled_coordinate(v, old, new) < new,
{
    assert(0 <= v * new < old * new) by (nonlinear_arith)
        requires
            0 <= v < old,
            1 <= new,
    ;
    assert(old * new <= MAX_SIDE * MAX_SIDE) by (nonlinear_arith)
        requires
            1 <= old <= MAX_SIDE,
            1 <= new <= MAX_SIDE,
    ;
    crate::geometry::lemma_div_below(v * new, old, new);
}

/// Position of disk `k` of the row-offset lattice.
pub open spec fn hex_site(k: int, n_row: int, n_column: int, lx: int, ly: int) -> Position {
    let w = lx / n_column;
    let h = ly / n_row;
    let row = k / n_column;
    let column = k % n_column;
    Position {
        x: (w / 4 + column * w + (if row % 2 == 1 { w / 2 } else { 0 })) as i64,
        y: (h / 2 + row * h) as i64,
    }
}

/// The disks of the row-offset lattice, in row-major order.
pub open spec fn hex_disks(n_row: int, n_column: int, lx: int, ly: int) -> Seq<Disk> {
    Seq::new(
        (n_row * n_column) as nat,
        |k: int|
            Disk {
                position: hex_site(k, n_row, n_column, lx, ly),
                radius: (SCALE / 2) as i64,
                cell_id: 0,
            },
    )
}

proof fn lemma_hex_site_range(k: int, n_row: int, n_column: int, lx: int, ly: int)
    requires
        0 <= k < n_row * n_column,
        n_row >= 1,
        n_column >= 1,
        1 <= lx <= MAX_SIDE,
        1 <= ly <= MAX_SIDE,
    ensures
        0 <= k / n_column < n_row,
        0 <= k % n_column < n_column,
        in_box(hex_site(k, n_row, n_column, lx, ly), Box { lx: lx as i64, ly: ly as i64 }),
        0 <= (k % n_column) * (lx / n_column) <= lx,
        0 <= (k / n_column) * (ly / n_row) <= ly,
{
    let w = lx / n_column;
    let h = ly / n_row;
    let row = k / n_column;
    let column = k % n_column;
    vstd::arithmetic::div_mod::lemma_fundamental_div_mod(k, n_column);
    vstd::arithmetic::div_mod::lemma_mod_bound(k, n_column);
    vstd::arithmetic::div_mod::lemma_fundamental_div_mod(lx, n_column);
    vstd::arithmetic::div_mod::lemma_mod_bound(lx, n_column);
    vstd::arithmetic::div_mod::lemma_fundamental_div_mod(ly, n_row);
    vstd::arithmetic::div_mod::lemma_mod_bound(ly, n_row);
    assert(0 <= row < n_row) by (nonlinear_arith)
        requires
            k == n_column * row + column,
            0 <= column < n_column,
            0 <= k < n_row * n_column,
    ;
    assert(0 <= w && 0 <= h) by (nonlinear_arith)
        requires
            lx == n_column * w + lx % n_column,
            ly == n_row * h + ly % n_row,
            lx % n_column < n_column,
            ly % n_row < n_row,
            lx >= 1,
            ly >= 1,
    ;
    assert(w / 4 + w / 2 < w || w == 0);
    assert(h / 2 < h || h == 0);
    assert(w / 4 + column * w + w / 2 < lx && 0 <= column * w <= lx) by (nonlinear_arith)
        requires
            w / 4 + w / 2 < w || w == 0,
            0 <= w,
            0 <= w / 4,
            0 <= w / 2,
            0 <= column < n_column,
            lx == n_column * w + lx % n_column,
            0 <= lx % n_column,
            lx >= 1,
    ;
    assert(h / 2 + row * h < ly && 0 <= row * h <= ly) by (nonlinear_arith)
        requires
            h / 2 < h || h == 0,
            0 <= h,
            0 <= h / 2,
            0 <= row < n_row,
            ly == n_row * h + ly % n_row,
            0 <= ly % n_row,
            ly >= 1,
    ;
}

/// Whether disks overlap depends only on their positions and radii.
proof fn lemma_same_placement_overlap(a: Seq<Disk>, b: Seq<Disk>, bx: Box)
    requires
        same_placement(a, b),
    ensures
        any_overlap(a, bx) == any_overlap(b, bx),
{
    if any_overlap(a, bx) {
        let (p, q) = choose|p: int, q: int|
            0 <= p < a.len() && 0 <= q < a.len() && p != q && #[trigger] disks_overlap(a[p], a[q], bx);
        assert(disks_overlap(b[p], b[q], bx));
    }
    if any_overlap(b, bx) {
        let (p, q) = choose|p: int, q: int|
            0 <= p < b.len() && 0 <= q < b.len() && p != q && #[trigger] disks_overlap(b[p], b[q], bx);
        assert(disks_overlap(a[p], a[q], bx));
    }
}

/// The box of the square-lattice state: side twenty.
pub open spec fn simple_box() -> Box {
    Box { lx: (20 * SCALE) as i64, ly: (20 * SCALE) as i64 }
}

/// Site `k` of a square lattice of spacing two, `s` sites to a column.
pub open spec fn square_site(k: int, s: int) -> Position {
    Position { x: (2 * SCALE * (k / s)) as i64, y: (2 * SCALE * (k % s)) as i64 }
}

/// `ceil(sqrt(n))` for `n >= 1`.
pub open spec fn square_side(n: int) -> int {
    choose|s: int| #[trigger] is_square_side(s, n)
}

/// `s` is the least positive integer whose square reaches `n`.
pub open spec fn is_square_side(s: int, n: int) -> bool {
    1 <= s && s * s >= n && (s - 1) * (s - 1) < n
}

/// `s` is `ceil(sqrt(n))` when its square reaches `n` and that of `s - 1` does not.
pub proof fn lemma_square_side(s: int, n: int)
    requires
        1 <= n,
        0 <= s,
        s * s >= n,
        s == 0 || (s - 1) * (s - 1) < n,
    ensures
        square_side(n) == s,
        1 <= s,
{
    assert(s != 0);
    assert(is_square_side(s, n));
    let t = square_side(n);
    if t < s {
        assert((s - 1) * (s - 1) >= t * t) by (nonlinear_arith)
            requires
                1 <= t < s,
        ;
    } else if t > s {
        assert((t - 1) * (t - 1) >= s * s) by (nonlinear_arith)
            requires
                1 <= s < t,
        ;
    }
}

proof fn lemma_square_site_range(k: int, s: int, n: int)
    requires
        0 <= k < n,
        1 <= s <= 10,
        n <= s * s,
    ensures
        0 <= k / s < 10,
        0 <= k % s < 10,
        in_box(square_site(k, s), simple_box()),
{
    vstd::arithmetic::div_mod::lemma_fundamental_div_mod(k, s);
    vstd::arithmetic::div_mod::lemma_mod_bound(k, s);
    assert(0 <= k / s < 10) by (nonlinear_arith)
        requires
            k == s * (k / s) + k % s,
            0 <= k % s < s,
            0 <= k < n <= s * s,
            1 <= s <= 10,
    ;
}

/// Along one axis of a box of side twenty, lattice rows `a` and `b` apart by
/// a non-zero step of at most nine lie at least two apart.
proof fn lemma_lattice_gap(a: int)
    requires
        -9 <= a <= 9,
        a != 0,
    ensures
        min_image(2 * 16384 * a, 327680int) * min_image(2 * 16384 * a, 327680int) >= 4 * 16384
            * 16384,
{
    let m = min_image(2 * 16384 * a, 327680int);
    let a2: int = if a > 5 {
        a - 10
    } else if a < -5 {
        a + 10
    } else {
        a
    };
    if a > 5 {
        assert(2 * (32768 * a) > 327680);
        assert(m == 32768 * a - 327680);
    } else if a < -5 {
        assert(2 * (32768 * a) < -327680);
        assert(m == 32768 * a + 327680);
    } else {
        assert(2 * (32768 * a) <= 327680);
        assert(2 * (32768 * a) >= -327680);
        assert(m == 32768 * a);
    }
    assert(m == 32768 * a2);
    assert(a2 != 0);
    assert(m * m >= 4 * 16384 * 16384) by (nonlinear_arith)
        requires
            m == 32768 * a2,
            a2 != 0,
    ;
}

proof fn lemma_square_sites_apart(a: int, b: int, s: int, n: int)
    requires
        0 <= a < n,
        0 <= b < n,
        a != b,
        1 <= s <= 10,
        n <= s * s,
    ensures
        dist_sq_periodic(
            square_site(a, s),
            square_site(b, s),
            simple_box(),
        ) >= 16384 * 16384,
{
    lemma_square_site_range(a, s, n);
    lemma_square_site_range(b, s, n);
    vstd::arithmetic::div_mod::lemma_fundamental_div_mod(a, s);
    vstd::arithmetic::div_mod::lemma_fundamental_div_mod(b, s);
    let bx = simple_box();
    let pa = square_site(a, s);
    let pb = square_site(b, s);
    let mx = min_image(pa.x - pb.x, bx.lx as int);
    let my = min_image(pa.y - pb.y, bx.ly as int);
    assert(pa.x - pb.x == 2 * 16384 * (a / s - b / s));
    assert(pa.y - pb.y == 2 * 16384 * (a % s - b % s));
    assert(mx * mx >= 0 && my * my >= 0) by (nonlinear_arith);
    if a / s != b / s {
        lemma_lattice_gap(a / s - b / s);
    } else {
        assert(a % s != b % s);
        lemma_lattice_gap(a % s - b % s);
    }
}

/// The disks after disk `i` moved by `(dx, dy)`.
pub open spec fn displaced(ds: Seq<Disk>, i: int, dx: int, dy: int, b: Box) -> Seq<Disk> {
    ds.update(i, moved_disk(ds[i], ds[i].position.x + dx, ds[i].position.y + dy, b))
}

proof fn lemma_small_mod(x: int, l: int)
    requires
        0 <= x < l,
    ensures
        wrapped(x, l) == x,
{
    vstd::arithmetic::div_mod::lemma_small_mod(x as nat, l as nat);
}

/// Moving one disk of a non-overlapping configuration to a place where it
/// overlaps no other disk leaves a non-overlapping configuration.
proof fn lemma_single_move_keeps_apart(a: Seq<Disk>, b: Seq<Disk>, i: int, bx: Box)
    requires
        box_ok(bx),
        a.len() == b.len(),
        0 <= i < a.len(),
        forall|j: int| 0 <= j < a.len() && j != i ==> a[j] == b[j],
        !any_overlap(a, bx),
        !overlaps_other(b, i, bx),
    ensures
        !any_overlap(b, bx),
{
    if any_overlap(b, bx) {
        let (p, q) = choose|p: int, q: int|
            0 <= p < b.len() && 0 <= q < b.len() && p != q && #[trigger] disks_overlap(b[p], b[q], bx);
        if p == i {
            assert(disks_overlap(b[i], b[q], bx));
        } else if q == i {
            crate::geometry::lemma_distance_periodic_symmetric(b[p].position, b[q].position, bx);
            assert(disks_overlap(b[i], b[p], bx));
        } else {
            assert(disks_overlap(a[p], a[q], bx));
        }
    }
}

/// How one disk's move from cell `oc` to cell `nc` changes the grid: the
/// shape and every neighbour list stay; only the disk lists of the two cells
/// change, the disk leaving the old list at its place and joining the end of
/// the new one.
pub open spec fn cell_move_frame(g0: Grid, g1: Grid, i: usize, oc: int, nc: int) -> bool {
    &&& g1.nx == g0.nx
    &&& g1.ny == g0.ny
    &&& g1.cells@.len() == g0.cells@.len()
    &&& forall|c: int|
        0 <= c < g0.cells@.len() ==> (#[trigger] g1.cells@[c]).neighbor_ids@
            == g0.cells@[c].neighbor_ids@
    &&& forall|c: int|
        0 <= c < g0.cells@.len() && c != oc && c != nc ==> (#[trigger] g1.cells@[c]).disk_ids@
            == g0.cells@[c].disk_ids@
    &&& oc == nc ==> g1.cells@[oc].disk_ids@ == g0.cells@[oc].disk_ids@
    &&& oc != nc ==> {
        &&& g1.cells@[nc].disk_ids@ == g0.cells@[nc].disk_ids@.push(i)
        &&& exists|p: int|
            0 <= p < g0.cells@[oc].disk_ids@.len() && #[trigger] g0.cells@[oc].disk_ids@[p] == i
                && g1.cells@[oc].disk_ids@ == g0.cells@[oc].disk_ids@.remove(p)
    }
}

/// The disk after a move to `(x, y)` wrapped into the box, with its cell
/// recomputed.
pub open spec fn moved_disk(d: Disk, x: int, y: int, b: Box) -> Disk {
    let p = Position { x: wrapped(x, b.lx as int) as i64, y: wrapped(y, b.ly as int) as i64 };
    Disk {
        position: p,
        radius: d.radius,
        cell_id: cell_of(
            p,
            b,
            grid_dim(b.lx as int, d.radius as int),
            grid_dim(b.ly as int, d.radius as int),
        ) as usize,
    }
}

/// Same number of disks, each with the same position and radius.
pub open spec fn same_placement(a: Seq<Disk>, b: Seq<Disk>) -> bool {
    &&& a.len() == b.len()
    &&& forall|i: int|
        0 <= i < a.len() ==> (#[trigger] a[i]).position == b[i].position && a[i].radius
            == b[i].radius
}

impl State {
    /// Every state that the constructors, `nvt_trial`, `rescale_box` and the
    /// drivers leave behind satisfies `inv()`, and in such a state no two
    /// disks come closer than a diameter, to the nearest periodic image;
    /// every disk lies in the box, in the cell its position gives.
    pub proof fn lemma_invariant_laws(&self)
        requires
            self.inv(),
        ensures
            forall|i: int, j: int|
                0 <= i < self.disks_view().len() && 0 <= j < self.disks_view().len() && i != j
                    ==> #[trigger] dist_sq_periodic(
                    self.disks_view()[i].position,
                    self.disks_view()[j].position,
                    self.box_view(),
                ) >= (2 * self.radius()) * (2 * self.radius()),
            forall|i: int|
                0 <= i < self.disks_view().len() ==> in_box(
                    (#[trigger] self.disks_view()[i]).position,
                    self.box_view(),
                ) && self.disks_view()[i].cell_id == cell_of(
                    self.disks_view()[i].position,
                    self.box_view(),
                    self.nx(),
                    self.ny(),
                ),
    {
        let ds = self.disks@;
        assert forall|i: int, j: int|
            0 <= i < ds.len() && 0 <= j < ds.len() && i != j implies #[trigger] dist_sq_periodic(
            ds[i].position,
            ds[j].position,
            self.sim_box,
        ) >= (2 * self.radius()) * (2 * self.radius()) by {
            assert(!disks_overlap(ds[i], ds[j], self.sim_box));
            assert(ds[i].radius + ds[j].radius == 2 * self.radius());
        }
    }

    /// In a consistent state every disk's `cell_id` is the cell of its
    /// position, and its index is listed exactly once over all cells: once in
    /// that cell and in no other.
    pub proof fn lemma_each_disk_in_one_cell(&self, i: int)
        requires
            self.consistent(),
            0 <= i < self.disks_view().len(),
        ensures
            self.disks_view()[i].cell_id == cell_of(
                self.disks_view()[i].position,
                self.box_view(),
                self.nx(),
                self.ny(),
            ),
            forall|c: int|
                0 <= c < self.grid_view().cells@.len() ==> (
                #[trigger] self.grid_view().cells@[c].disk_ids@.contains(i as usize) <==> c
                    == self.disks_view()[i].cell_id),
            self.grid_view().cells@[self.disks_view()[i].cell_id as int].disk_ids@.to_multiset().count(
                i as usize,
            ) == 1,
    {
        let g = self.grid;
        let ds = self.disks@;
        assert(ds.len() == self.disks.len());
        let iu = i as usize;
        assert(iu as int == i);
        assert forall|c: int| 0 <= c < g.cells@.len() implies (
            #[trigger] g.cells@[c].disk_ids@.contains(iu) <==> c == ds[i].cell_id) by {
            if g.cells@[c].disk_ids@.contains(iu) {
                let k = choose|k: int|
                    0 <= k < g.cells@[c].disk_ids@.len() && g.cells@[c].disk_ids@[k] == iu;
                assert(ds[g.cells@[c].disk_ids@[k] as int].cell_id == c);
            }
        }
        let ids = g.cells@[ds[i].cell_id as int].disk_ids@;
        ids.lemma_multiset_has_no_duplicates();
        ids.to_multiset_ensures();
    }
}

proof fn lemma_near_self(c: int, nx: int, ny: int)
    requires
        nx >= 1,
        ny >= 1,
    ensures
        cells_near(c, c, nx, ny),
{
}

} // verus!
