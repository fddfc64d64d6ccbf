//! Points, the periodic box, minimum-image distances and the cell list.

use vstd::prelude::*;
use vstd::arithmetic::div_mod::{
    lemma_fundamental_div_mod, lemma_fundamental_div_mod_converse_mod, lemma_mod_pos_bound,
    lemma_mod_twice, lemma_mod_bound,
};
use vstd::arithmetic::div_mod::lemma_fundamental_div_mod_converse_div;

use crate::disks::{disk_ok, Disk};
use crate::{MAX_COORD, MAX_SIDE};

verus! {

/// A point of the plane, in length quanta.
#[derive(Clone, Copy, Debug, PartialEq, Eq, Structural)]
pub struct Position {
    pub x: i64,
    pub y: i64,
}

/// The periodic simulation box, with its two side lengths in quanta.
#[derive(Clone, Copy, Debug, PartialEq, Eq, Structural)]
pub struct Box {
    pub lx: i64,
    pub ly: i64,
}

/// A coordinate small enough for differences and squares to stay exact.
pub open spec fn coord_ok(v: int) -> bool {
    -MAX_COORD <= v <= MAX_COORD
}

pub open spec fn position_ok(p: Position) -> bool {
    coord_ok(p.x as int) && coord_ok(p.y as int)
}

/// Both sides are positive and bounded.
pub open spec fn box_ok(b: Box) -> bool {
    1 <= b.lx <= MAX_SIDE && 1 <= b.ly <= MAX_SIDE
}

/// The point lies in the canonical cell `[0, lx) x [0, ly)`.
pub open spec fn in_box(p: Position, b: Box) -> bool {
    0 <= p.x < b.lx && 0 <= p.y < b.ly
}

/// One periodic image shift: a difference above half the side loses a side,
/// one below minus half the side gains one.
pub open spec fn min_image(d: int, l: int) -> int {
    if 2 * d > l {
        d - l
    } else if 2 * d < -l {
        d + l
    } else {
        d
    }
}

pub open spec fn dist_sq(p: Position, q: Position) -> int {
    (p.x - q.x) * (p.x - q.x) + (p.y - q.y) * (p.y - q.y)
}

/// Squared minimum-image distance between two points of a periodic box.
pub open spec fn dist_sq_periodic(p: Position, q: Position, b: Box) -> int {
    let dx = min_image(p.x - q.x, b.lx as int);
    let dy = min_image(p.y - q.y, b.ly as int);
    dx * dx + dy * dy
}

/// `x - l * floor(x / l)`: the representative of `x` in `[0, l)`.
pub open spec fn wrapped(x: int, l: int) -> int {
    x % l
}

proof fn lemma_square_bound(d: int, m: int)
    requires
        0 <= m,
        -m <= d <= m,
    ensures
        0 <= d * d <= m * m,
{
    assert(0 <= d * d <= m * m) by (nonlinear_arith)
        requires
            0 <= m,
            -m <= d <= m,
    ;
}

/// Squared Euclidean distance, ignoring the periodic boundaries.
pub fn distance_sq(pos_1: &Position, pos_2: &Position) -> (r: u64)
    requires
        position_ok(*pos_1),
        position_ok(*pos_2),
    ensures
        r == dist_sq(*pos_1, *pos_2),
{
    let dx: i64 = pos_1.x - pos_2.x;
    let dy: i64 = pos_1.y - pos_2.y;
    proof {
        lemma_square_bound(dx as int, 2 * MAX_COORD);
        lemma_square_bound(dy as int, 2 * MAX_COORD);
    }
    (dx * dx + dy * dy) as u64
}

/// Squared minimum-image distance under periodic boundary conditions.
pub fn distance_sq_periodic(pos_1: &Position, pos_2: &Position, sim_box: &Box) -> (r: u64)
    requires
        position_ok(*pos_1),
        position_ok(*pos_2),
        box_ok(*sim_box),
    ensures
        r == dist_sq_periodic(*pos_1, *pos_2, *sim_box),
{
    let mut dx: i64 = pos_1.x - pos_2.x;
    let mut dy: i64 = pos_1.y - pos_2.y;
    apply_boundary_conditions(&mut dx, &mut dy, sim_box);
    proof {
        lemma_square_bound(dx as int, 1342177280);
        lemma_square_bound(dy as int, 1342177280);
    }
    (dx * dx + dy * dy) as u64
}

/// Replaces each coordinate difference by its nearest periodic image, shifting
/// it by at most one box side.
pub fn apply_boundary_conditions(dx: &mut i64, dy: &mut i64, sim_box: &Box)
    requires
        -2 * MAX_COORD <= *old(dx) <= 2 * MAX_COORD,
        -2 * MAX_COORD <= *old(dy) <= 2 * MAX_COORD,
        box_ok(*sim_box),
    ensures
        *final(dx) == min_image(*old(dx) as int, sim_box.lx as int),
        *final(dy) == min_image(*old(dy) as int, sim_box.ly as int),
{
    if 2 * *dx > sim_box.lx {
        *dx = *dx - sim_box.lx;
    } else if 2 * *dx < -sim_box.lx {
        *dx = *dx + sim_box.lx;
    }
    if 2 * *dy > sim_box.ly {
        *dy = *dy - sim_box.ly;
    } else if 2 * *dy < -sim_box.ly {
        *dy = *dy + sim_box.ly;
    }
}

/// Brings a coordinate into `[0, l)` by whole periods; negative values included.
pub fn wrap_into_box(x: i64, l: i64) -> (r: i64)
    requires
        l >= 1,
    ensures
        r == wrapped(x as int, l as int),
        0 <= r < l,
{
    if x >= 0 {
        let m: u64 = (x as u64) % (l as u64);
        proof {
            lemma_mod_pos_bound(x as int, l as int);
        }
        m as i64
    } else {
        let k: u64 = (-(x + 1)) as u64;
        let m: u64 = k % (l as u64);
        proof {
            let q = (k as int) / (l as int);
            lemma_fundamental_div_mod(k as int, l as int);
            lemma_mod_pos_bound(k as int, l as int);
            assert(x as int == (-(q + 1)) * (l as int) + (l - 1 - m)) by (nonlinear_arith)
                requires
                    k as int == (l as int) * q + (m as int),
                    k as int == -(x + 1),
            ;
            lemma_fundamental_div_mod_converse_mod(x as int, l as int, -(q + 1), l - 1 - m);
        }
        (l as u64 - 1 - m) as i64
    }
}

/// Wraps an abscissa into the box.
pub fn put_in_box_x(x: i64, sim_box: &Box) -> (r: i64)
    requires
        box_ok(*sim_box),
    ensures
        r == wrapped(x as int, sim_box.lx as int),
        0 <= r < sim_box.lx,
{
    wrap_into_box(x, sim_box.lx)
}

/// Wraps an ordinate into the box.
pub fn put_in_box_y(y: i64, sim_box: &Box) -> (r: i64)
    requires
        box_ok(*sim_box),
    ensures
        r == wrapped(y as int, sim_box.ly as int),
        0 <= r < sim_box.ly,
{
    wrap_into_box(y, sim_box.ly)
}

/// The minimum-image distance does not depend on the order of the two points.
pub proof fn lemma_distance_periodic_symmetric(p: Position, q: Position, b: Box)
    requires
        box_ok(b),
    ensures
        dist_sq_periodic(p, q, b) == dist_sq_periodic(q, p, b),
{
    let dx = p.x - q.x;
    let dy = p.y - q.y;
    assert(min_image(-dx, b.lx as int) == -min_image(dx, b.lx as int)
        || 2 * dx == b.lx || 2 * dx == -b.lx);
    assert(min_image(-dy, b.ly as int) == -min_image(dy, b.ly as int)
        || 2 * dy == b.ly || 2 * dy == -b.ly);
    assert(dist_sq_periodic(p, q, b) == dist_sq_periodic(q, p, b)) by (nonlinear_arith)
        requires
            min_image(-dx, b.lx as int) == -min_image(dx, b.lx as int)
                || min_image(-dx, b.lx as int) == min_image(dx, b.lx as int),
            min_image(-dy, b.ly as int) == -min_image(dy, b.ly as int)
                || min_image(-dy, b.ly as int) == min_image(dy, b.ly as int),
            dist_sq_periodic(p, q, b) == min_image(dx, b.lx as int) * min_image(dx, b.lx as int)
                + min_image(dy, b.ly as int) * min_image(dy, b.ly as int),
            dist_sq_periodic(q, p, b) == min_image(-dx, b.lx as int) * min_image(-dx, b.lx as int)
                + min_image(-dy, b.ly as int) * min_image(-dy, b.ly as int),
    ;
}

/// For two points of the box, the minimum-image distance is at most half the
/// diagonal: `4 d^2 <= lx^2 + ly^2`.
pub proof fn lemma_distance_periodic_bounded(p: Position, q: Position, b: Box)
    requires
        box_ok(b),
        in_box(p, b),
        in_box(q, b),
    ensures
        4 * dist_sq_periodic(p, q, b) <= b.lx * b.lx + b.ly * b.ly,
{
    let dx = min_image(p.x - q.x, b.lx as int);
    let dy = min_image(p.y - q.y, b.ly as int);
    assert(-b.lx <= 2 * dx <= b.lx);
    assert(-b.ly <= 2 * dy <= b.ly);
    lemma_square_bound(2 * dx, b.lx as int);
    lemma_square_bound(2 * dy, b.ly as int);
    assert(4 * (dx * dx + dy * dy) == (2 * dx) * (2 * dx) + (2 * dy) * (2 * dy))
        by (nonlinear_arith);
}

/// Wrapping into the box twice gives what wrapping once gives.
pub proof fn lemma_wrap_idempotent(x: int, l: int)
    requires
        l >= 1,
    ensures
        wrapped(wrapped(x, l), l) == wrapped(x, l),
{
    lemma_mod_twice(x, l);
}

/// Most cells along one side of the grid.
pub const MAX_CELLS_PER_SIDE: u32 = 4096;

/// The cell list: an `nx` by `ny` partition of the box; cell `(ix, iy)` has
/// index `ix + nx * iy`.
pub struct Grid {
    pub nx: u32,
    pub ny: u32,
    pub cells: Vec<Cell>,
}

/// The disks that lie in one cell, and the indices of its adjacent cells.
pub struct Cell {
    pub disk_ids: Vec<usize>,
    pub neighbor_ids: Vec<usize>,
}

/// Cells along a side of length `l` for disks of radius `r`: `l / (3 r)`,
/// at least one and at most `MAX_CELLS_PER_SIDE`, so that a cell is never
/// narrower than `3 r` unless one cell spans the whole side.
pub open spec fn grid_dim(l: int, r: int) -> int {
    let k = l / (3 * r);
    if k < 1 {
        1
    } else if k > MAX_CELLS_PER_SIDE {
        MAX_CELLS_PER_SIDE as int
    } else {
        k
    }
}

/// Column (or row) of a coordinate `v` in `[0, l)` split into `n` strips.
pub open spec fn strip_of(v: int, l: int, n: int) -> int {
    (v * n) / l
}

/// Index of the cell that holds a point of the box.
pub open spec fn cell_of(p: Position, b: Box, nx: int, ny: int) -> int {
    strip_of(p.x as int, b.lx as int, nx) + nx * strip_of(p.y as int, b.ly as int, ny)
}

/// Strip `c` equals strip `a` or is adjacent to it, wrapping around `n` strips.
pub open spec fn near(a: int, c: int, n: int) -> bool {
    c == a || c == (a + 1) % n || c == (a + n - 1) % n
}

/// Cells `c` and `d` lie in one 3 x 3 block of the periodic grid.
pub open spec fn cells_near(c: int, d: int, nx: int, ny: int) -> bool {
    near(c % nx, d % nx, nx) && near(c / nx, d / nx, ny)
}

/// `ns` lists, once each, exactly the other cells of the periodic 3 x 3
/// block around cell `c` of an `nx` by `ny` grid.
pub open spec fn neighbor_list_ok(ns: Seq<usize>, c: int, nx: int, ny: int) -> bool {
    &&& ns.no_duplicates()
    &&& forall|k: int|
        0 <= k < ns.len() ==> #[trigger] ns[k] < nx * ny && ns[k] != c && cells_near(
            c,
            ns[k] as int,
            nx,
            ny,
        )
    &&& forall|d: int|
        0 <= d < nx * ny && d != c && cells_near(c, d, nx, ny) ==> ns.contains(d as usize)
}

/// Every cell carries its neighbour list.
pub open spec fn neighbors_ok(g: Grid) -> bool {
    forall|c: int|
        0 <= c < g.cells@.len() ==> neighbor_list_ok(
            (#[trigger] g.cells@[c]).neighbor_ids@,
            c,
            g.nx as int,
            g.ny as int,
        )
}

/// Each cell lists, once each, exactly the disks whose `cell_id` is that cell.
pub open spec fn members_ok(g: Grid, ds: Seq<Disk>) -> bool {
    &&& forall|c: int|
        0 <= c < g.cells@.len() ==> {
            let ids = (#[trigger] g.cells@[c]).disk_ids@;
            &&& ids.no_duplicates()
            &&& forall|k: int|
                0 <= k < ids.len() ==> 0 <= #[trigger] ids[k] < ds.len() && ds[ids[k] as int].cell_id
                    == c
        }
    &&& forall|i: int|
        0 <= i < ds.len() ==> {
            &&& ds[i].cell_id < g.cells@.len()
            &&& g.cells@[ds[i].cell_id as int].disk_ids@.contains(i as usize)
        }
}

/// The grid matches the box, the common radius `r` and the disks: its shape
/// follows from the box and `r`, and each disk's `cell_id` is the cell of its
/// position, listed in that cell.
pub open spec fn grid_ok(g: Grid, ds: Seq<Disk>, b: Box, r: int) -> bool {
    &&& g.nx == grid_dim(b.lx as int, r)
    &&& g.ny == grid_dim(b.ly as int, r)
    &&& g.cells@.len() == g.nx * g.ny
    &&& neighbors_ok(g)
    &&& members_ok(g, ds)
    &&& forall|i: int|
        0 <= i < ds.len() ==> #[trigger] ds[i].cell_id == cell_of(
            ds[i].position,
            b,
            g.nx as int,
            g.ny as int,
        )
}

/// The order a freshly built grid has: each neighbour list is
/// `neighbor_seq`, and each cell lists its disks in increasing index order.
/// Together with `grid_ok` this fixes the grid from the disks and the box.
pub open spec fn grid_canonical(g: Grid) -> bool {
    forall|c: int|
        0 <= c < g.cells@.len() ==> {
            &&& (#[trigger] g.cells@[c]).neighbor_ids@ == neighbor_seq(c, g.nx as int, g.ny as int)
            &&& forall|k1: int, k2: int|
                0 <= k1 < k2 < g.cells@[c].disk_ids@.len() ==> g.cells@[c].disk_ids@[k1]
                    < g.cells@[c].disk_ids@[k2]
        }
}

/// Disks of one positive radius, all inside the box.
pub open spec fn disks_in_box(ds: Seq<Disk>, b: Box) -> bool {
    &&& ds.len() >= 1
    &&& 1 <= ds[0].radius <= MAX_SIDE
    &&& forall|i: int|
        0 <= i < ds.len() ==> {
            &&& (#[trigger] ds[i]).radius == ds[0].radius
            &&& in_box(ds[i].position, b)
        }
}

pub(crate) proof fn lemma_in_box_disk_ok(ds: Seq<Disk>, b: Box)
    requires
        disks_in_box(ds, b),
        box_ok(b),
    ensures
        forall|i: int| 0 <= i < ds.len() ==> disk_ok(#[trigger] ds[i]),
{
}

pub(crate) proof fn lemma_div_below(u: int, l: int, n: int)
    requires
        l >= 1,
        n >= 1,
        0 <= u < l * n,
    ensures
        0 <= u / l < n,
{
    lemma_fundamental_div_mod(u, l);
    lemma_mod_pos_bound(u, l);
    assert(0 <= u / l < n) by (nonlinear_arith)
        requires
            u == l * (u / l) + u % l,
            0 <= u % l < l,
            0 <= u < l * n,
            l >= 1,
    ;
}

proof fn lemma_strip_bound(v: int, l: int, n: int)
    requires
        l >= 1,
        n >= 1,
        0 <= v < l,
    ensures
        0 <= strip_of(v, l, n) < n,
{
    assert(0 <= v * n < l * n) by (nonlinear_arith)
        requires
            0 <= v < l,
            n >= 1,
    ;
    lemma_div_below(v * n, l, n);
}

proof fn lemma_cell_bound(a: int, b: int, nx: int, ny: int)
    requires
        0 <= a < nx,
        0 <= b < ny,
    ensures
        0 <= a + nx * b < nx * ny,
        (a + nx * b) % nx == a,
        (a + nx * b) / nx == b,
{
    assert(0 <= a + nx * b < nx * ny) by (nonlinear_arith)
        requires
            0 <= a < nx,
            0 <= b < ny,
    ;
    assert(a + nx * b == b * nx + a) by (nonlinear_arith);
    lemma_fundamental_div_mod_converse_mod(b * nx + a, nx, b, a);
    lemma_fundamental_div_mod_converse_div(b * nx + a, nx, b, a);
}

/// Number of cells along a side.
fn grid_dimension(l: i64, r: i64) -> (n: u32)
    requires
        1 <= l <= MAX_SIDE,
        1 <= r <= MAX_SIDE,
    ensures
        n == grid_dim(l as int, r as int),
        1 <= n <= MAX_CELLS_PER_SIDE,
{
    let k: i64 = l / (3 * r);
    if k < 1 {
        1
    } else if k > MAX_CELLS_PER_SIDE as i64 {
        MAX_CELLS_PER_SIDE
    } else {
        k as u32
    }
}

/// The cell that holds a point of the box.
pub(crate) fn cell_index(p: &Position, b: &Box, nx: u32, ny: u32) -> (c: usize)
    requires
        box_ok(*b),
        in_box(*p, *b),
        1 <= nx <= MAX_CELLS_PER_SIDE,
        1 <= ny <= MAX_CELLS_PER_SIDE,
    ensures
        c == cell_of(*p, *b, nx as int, ny as int),
        c < nx * ny,
{
    assert(p.x * nx <= MAX_SIDE * MAX_CELLS_PER_SIDE) by (nonlinear_arith)
        requires
            0 <= p.x <= MAX_SIDE,
            nx <= MAX_CELLS_PER_SIDE,
    ;
    assert(p.y * ny <= MAX_SIDE * MAX_CELLS_PER_SIDE) by (nonlinear_arith)
        requires
            0 <= p.y <= MAX_SIDE,
            ny <= MAX_CELLS_PER_SIDE,
    ;
    let ix: u64 = (p.x as u64) * (nx as u64) / (b.lx as u64);
    let iy: u64 = (p.y as u64) * (ny as u64) / (b.ly as u64);
    proof {
        lemma_strip_bound(p.x as int, b.lx as int, nx as int);
        lemma_strip_bound(p.y as int, b.ly as int, ny as int);
        lemma_cell_bound(ix as int, iy as int, nx as int, ny as int);
        assert(nx * ny <= 16777216) by (nonlinear_arith)
            requires
                1 <= nx <= MAX_CELLS_PER_SIDE,
                1 <= ny <= MAX_CELLS_PER_SIDE,
        ;
    }
    (ix as usize) + (nx as usize) * (iy as usize)
}

/// `s` with `x` appended, unless `x` is `home` or already in `s`.
pub open spec fn add_unique(s: Seq<usize>, x: usize, home: usize) -> Seq<usize> {
    if x == home || s.contains(x) {
        s
    } else {
        s.push(x)
    }
}

/// The neighbour list of cell `c`, in the order it is built: the columns
/// left, same, right of `c`, and within each the rows below, same, above,
/// each cell once and never `c` itself.
pub open spec fn neighbor_seq(c: int, nx: int, ny: int) -> Seq<usize> {
    let ix = c % nx;
    let iy = c / nx;
    let x0 = (ix + nx - 1) % nx;
    let x2 = (ix + 1) % nx;
    let y0 = (iy + ny - 1) % ny;
    let y2 = (iy + 1) % ny;
    let h = c as usize;
    let s1 = add_unique(Seq::empty(), (x0 + nx * y0) as usize, h);
    let s2 = add_unique(s1, (x0 + nx * iy) as usize, h);
    let s3 = add_unique(s2, (x0 + nx * y2) as usize, h);
    let s4 = add_unique(s3, (ix + nx * y0) as usize, h);
    let s5 = add_unique(s4, (ix + nx * iy) as usize, h);
    let s6 = add_unique(s5, (ix + nx * y2) as usize, h);
    let s7 = add_unique(s6, (x2 + nx * y0) as usize, h);
    let s8 = add_unique(s7, (x2 + nx * iy) as usize, h);
    add_unique(s8, (x2 + nx * y2) as usize, h)
}

/// Appends `x` to a list without duplicates unless it is already there or is
/// `home`.
fn add_neighbor(v: &mut Vec<usize>, x: usize, home: usize)
    requires
        old(v)@.no_duplicates(),
    ensures
        final(v)@.no_duplicates(),
        forall|y: usize| #[trigger]
            final(v)@.contains(y) <==> (old(v)@.contains(y) || (y == x && x != home)),
        forall|k: int|
            0 <= k < final(v)@.len() ==> #[trigger] final(v)@[k] == x || old(v)@.contains(
                final(v)@[k],
            ),
        final(v)@ == add_unique(old(v)@, x, home),
{
    if x == home {
        return;
    }
    let mut k: usize = 0;
    while k < v.len()
        invariant
            v@ == old(v)@,
            old(v)@.no_duplicates(),
            0 <= k <= v@.len(),
            forall|j: int| 0 <= j < k ==> v@[j] != x,
        decreases v@.len() - k,
    {
        if v[k] == x {
            proof {
                assert(v@.contains(x));
            }
            return;
        }
        k = k + 1;
    }
    let ghost before = v@;
    v.push(x);
    proof {
        assert forall|y: usize| #[trigger] v@.contains(y) <==> (before.contains(y) || y == x) by {
            if v@.contains(y) {
                let j = choose|j: int| 0 <= j < v@.len() && v@[j] == y;
                if j < before.len() {
                    assert(before[j] == y);
                }
            }
            if before.contains(y) {
                let j = choose|j: int| 0 <= j < before.len() && before[j] == y;
                assert(v@[j] == y);
            }
            if y == x {
                assert(v@[before.len() as int] == y);
            }
        }
        assert forall|k: int| 0 <= k < v@.len() implies #[trigger] v@[k] == x || before.contains(
            v@[k],
        ) by {
            if k < before.len() {
                assert(before[k] == v@[k]);
            }
        }
    }
}

/// Adds cell `(ax, ay)` to a neighbour list of cell `c`.
fn add_cell(ns: &mut Vec<usize>, ax: usize, ay: usize, nx: u32, ny: u32, c: usize)
    requires
        ax < nx,
        ay < ny,
        nx * ny <= 16777216,
        cells_near(c as int, ax + nx * ay, nx as int, ny as int),
        old(ns)@.no_duplicates(),
        forall|k: int|
            0 <= k < old(ns)@.len() ==> #[trigger] old(ns)@[k] < nx * ny && old(ns)@[k] != c
                && cells_near(c as int, old(ns)@[k] as int, nx as int, ny as int),
    ensures
        final(ns)@.no_duplicates(),
        forall|k: int|
            0 <= k < final(ns)@.len() ==> #[trigger] final(ns)@[k] < nx * ny && final(ns)@[k] != c
                && cells_near(c as int, final(ns)@[k] as int, nx as int, ny as int),
        forall|y: usize| #[trigger] old(ns)@.contains(y) ==> final(ns)@.contains(y),
        ax + nx * ay != c ==> final(ns)@.contains((ax + nx * ay) as usize),
        final(ns)@ == add_unique(old(ns)@, (ax + nx * ay) as usize, c),
{
    proof {
        lemma_cell_bound(ax as int, ay as int, nx as int, ny as int);
    }
    let d: usize = ax + (nx as usize) * ay;
    let ghost before = ns@;
    add_neighbor(ns, d, c);
    proof {
        assert forall|k: int| 0 <= k < ns@.len() implies #[trigger] ns@[k] < nx * ny
            && ns@[k] != c && cells_near(c as int, ns@[k] as int, nx as int, ny as int) by {
            assert(ns@.contains(ns@[k]));
            if ns@[k] != d || before.contains(ns@[k]) {
                assert(before.contains(ns@[k]));
                let j = choose|j: int| 0 <= j < before.len() && before[j] == ns@[k];
                assert(before[j] < nx * ny);
            }
        }
    }
}

/// The other cells of the periodic 3 x 3 block around cell `c`. With fewer
/// than three cells along a side the block wraps onto itself; the list still
/// holds each cell once and never `c` itself.
fn neighbor_cells(c: usize, nx: u32, ny: u32) -> (ns: Vec<usize>)
    requires
        1 <= nx <= MAX_CELLS_PER_SIDE,
        1 <= ny <= MAX_CELLS_PER_SIDE,
        c < nx * ny,
    ensures
        neighbor_list_ok(ns@, c as int, nx as int, ny as int),
        ns@ == neighbor_seq(c as int, nx as int, ny as int),
{
    let nxu = nx as usize;
    let nyu = ny as usize;
    proof {
        assert(nx * ny <= 16777216) by (nonlinear_arith)
            requires
                1 <= nx <= MAX_CELLS_PER_SIDE,
                1 <= ny <= MAX_CELLS_PER_SIDE,
        ;
        lemma_fundamental_div_mod(c as int, nx as int);
        lemma_mod_pos_bound(c as int, nx as int);
        assert(c as int / nx as int <= ny - 1) by (nonlinear_arith)
            requires
                c as int == nx * (c as int / nx as int) + c as int % nx as int,
                0 <= c as int % nx as int,
                c < nx * ny,
                nx >= 1,
        ;
    }
    let ix: usize = c % nxu;
    let iy: usize = c / nxu;
    let x0: usize = (ix + nxu - 1) % nxu;
    let x2: usize = (ix + 1) % nxu;
    let y0: usize = (iy + nyu - 1) % nyu;
    let y2: usize = (iy + 1) % nyu;
    let mut ns: Vec<usize> = Vec::new();
    proof {
        lemma_small_mod_one(ix as int, nx as int);
        lemma_small_mod_one(iy as int, ny as int);
        lemma_cell_bound(x0 as int, y0 as int, nx as int, ny as int);
        lemma_cell_bound(x0 as int, iy as int, nx as int, ny as int);
        lemma_cell_bound(x0 as int, y2 as int, nx as int, ny as int);
        lemma_cell_bound(ix as int, y0 as int, nx as int, ny as int);
        lemma_cell_bound(ix as int, iy as int, nx as int, ny as int);
        lemma_cell_bound(ix as int, y2 as int, nx as int, ny as int);
        lemma_cell_bound(x2 as int, y0 as int, nx as int, ny as int);
        lemma_cell_bound(x2 as int, iy as int, nx as int, ny as int);
        lemma_cell_bound(x2 as int, y2 as int, nx as int, ny as int);
    }
    add_cell(&mut ns, x0, y0, nx, ny, c);
    add_cell(&mut ns, x0, iy, nx, ny, c);
    add_cell(&mut ns, x0, y2, nx, ny, c);
    add_cell(&mut ns, ix, y0, nx, ny, c);
    add_cell(&mut ns, ix, iy, nx, ny, c);
    add_cell(&mut ns, ix, y2, nx, ny, c);
    add_cell(&mut ns, x2, y0, nx, ny, c);
    add_cell(&mut ns, x2, iy, nx, ny, c);
    add_cell(&mut ns, x2, y2, nx, ny, c);
    proof {
        assert forall|d: int|
            0 <= d < nx * ny && d != c && cells_near(
                c as int,
                d,
                nx as int,
                ny as int,
            ) implies ns@.contains(d as usize) by {
            lemma_fundamental_div_mod(d, nx as int);
            lemma_mod_pos_bound(d, nx as int);
            lemma_small_mod_one(ix as int, nx as int);
            lemma_small_mod_one(iy as int, ny as int);
            let dx = d % (nx as int);
            let dy = d / (nx as int);
            assert(d == dx + nx * dy);
            assert(dx == x0 || dx == ix || dx == x2);
            assert(dy == y0 || dy == iy || dy == y2);
        }
    }
    ns
}

proof fn lemma_small_mod_one(a: int, n: int)
    requires
        0 <= a < n,
    ensures
        a % n == a,
{
    lemma_fundamental_div_mod_converse_mod(a, n, 0, a);
}

/// Builds the cell list of a set of disks and records in each disk the cell
/// that holds it.
pub fn create_grid(disks: &mut Vec<Disk>, sim_box: &Box) -> (grid: Grid)
    requires
        box_ok(*sim_box),
        disks_in_box(old(disks)@, *sim_box),
    ensures
        final(disks)@.len() == old(disks)@.len(),
        forall|i: int|
            0 <= i < old(disks)@.len() ==> (#[trigger] final(disks)@[i]).position == old(
                disks,
            )@[i].position && final(disks)@[i].radius == old(disks)@[i].radius,
        grid_ok(grid, final(disks)@, *sim_box, old(disks)@[0].radius as int),
        grid_canonical(grid),
{
    let radius: i64 = disks[0].radius;
    let nx: u32 = grid_dimension(sim_box.lx, radius);
    let ny: u32 = grid_dimension(sim_box.ly, radius);
    proof {
        assert(nx * ny <= 16777216) by (nonlinear_arith)
            requires
                1 <= nx <= MAX_CELLS_PER_SIDE,
                1 <= ny <= MAX_CELLS_PER_SIDE,
        ;
    }
    let number_of_cells: usize = (nx as usize) * (ny as usize);
    let mut cells: Vec<Cell> = Vec::new();
    let mut c: usize = 0;
    while c < number_of_cells
        invariant
            number_of_cells == nx * ny,
            1 <= nx <= MAX_CELLS_PER_SIDE,
            1 <= ny <= MAX_CELLS_PER_SIDE,
            0 <= c <= number_of_cells,
            cells@.len() == c,
            forall|cc: int|
                0 <= cc < c ==> (#[trigger] cells@[cc]).disk_ids@.len() == 0 && neighbor_list_ok(
                    cells@[cc].neighbor_ids@,
                    cc,
                    nx as int,
                    ny as int,
                ) && cells@[cc].neighbor_ids@ == neighbor_seq(cc, nx as int, ny as int),
        decreases number_of_cells - c,
    {
        let neighbor_ids = neighbor_cells(c, nx, ny);
        cells.push(Cell { disk_ids: Vec::new(), neighbor_ids });
        c = c + 1;
    }
    let n: usize = disks.len();
    let ghost before = disks@;
    for i in 0..n
        invariant
            box_ok(*sim_box),
            1 <= nx <= MAX_CELLS_PER_SIDE,
            1 <= ny <= MAX_CELLS_PER_SIDE,
            n == before.len(),
            disks@.len() == n,
            disks_in_box(before, *sim_box),
            forall|k: int|
                0 <= k < n ==> (#[trigger] disks@[k]).position == before[k].position
                    && disks@[k].radius == before[k].radius,
            cells@.len() == nx * ny,
            forall|cc: int|
                0 <= cc < cells@.len() ==> neighbor_list_ok(
                    (#[trigger] cells@[cc]).neighbor_ids@,
                    cc,
                    nx as int,
                    ny as int,
                ) && cells@[cc].neighbor_ids@ == neighbor_seq(cc, nx as int, ny as int),
            forall|cc: int|
                0 <= cc < cells@.len() ==> {
                    let ids = (#[trigger] cells@[cc]).disk_ids@;
                    &&& forall|k1: int, k2: int| 0 <= k1 < k2 < ids.len() ==> ids[k1] < ids[k2]
                    &&& ids.no_duplicates()
                    &&& forall|k: int|
                        0 <= k < ids.len() ==> 0 <= #[trigger] ids[k] < i
                            && disks@[ids[k] as int].cell_id == cc
                },
            forall|j: int|
                0 <= j < i ==> #[trigger] disks@[j].cell_id == cell_of(
                    disks@[j].position,
                    *sim_box,
                    nx as int,
                    ny as int,
                ) && disks@[j].cell_id < cells@.len() && cells@[disks@[j].cell_id as int].disk_ids@.contains(j as usize),
    {
        let cid: usize = cell_index(&disks[i].position, sim_box, nx, ny);
        let ghost cells_before = cells@;
        let ghost disks_prev = disks@;
        cells[cid].disk_ids.push(i);
        disks[i].cell_id = cid;
        proof {
            assert forall|cc: int| 0 <= cc < cells@.len() implies {
                let ids = (#[trigger] cells@[cc]).disk_ids@;
                &&& forall|k1: int, k2: int| 0 <= k1 < k2 < ids.len() ==> ids[k1] < ids[k2]
                &&& ids.no_duplicates()
                &&& forall|k: int|
                    0 <= k < ids.len() ==> 0 <= #[trigger] ids[k] < i + 1
                        && disks@[ids[k] as int].cell_id == cc
            } by {
                let ids = cells@[cc].disk_ids@;
                let old_ids = cells_before[cc].disk_ids@;
                if cc == cid {
                    assert(ids == old_ids.push(i));
                    assert forall|k: int| 0 <= k < old_ids.len() implies old_ids[k] != i by {
                        assert(old_ids[k] < i);
                    }
                    assert forall|k1: int, k2: int| 0 <= k1 < k2 < ids.len() implies ids[k1]
                        < ids[k2] by {
                        if k2 < old_ids.len() {
                        } else {
                            assert(old_ids[k1] < i);
                        }
                    }
                    assert forall|k1: int, k2: int|
                        0 <= k1 < ids.len() && 0 <= k2 < ids.len() && k1 != k2 implies ids[k1]
                        != ids[k2] by {
                        if k1 < old_ids.len() && k2 < old_ids.len() {
                            assert(old_ids[k1] != old_ids[k2]);
                        } else if k1 < old_ids.len() {
                            assert(old_ids[k1] < i);
                        } else if k2 < old_ids.len() {
                            assert(old_ids[k2] < i);
                        }
                    }
                    assert forall|k: int| 0 <= k < ids.len() implies 0 <= #[trigger] ids[k] < i + 1
                        && disks@[ids[k] as int].cell_id == cc by {
                        if k < old_ids.len() {
                            assert(old_ids[k] < i);
                            assert(disks_prev[old_ids[k] as int].cell_id == cc);
                        }
                    }
                } else {
                    assert(ids == old_ids);
                    assert forall|k: int| 0 <= k < ids.len() implies 0 <= #[trigger] ids[k] < i + 1
                        && disks@[ids[k] as int].cell_id == cc by {
                        assert(old_ids[k] < i);
                        assert(disks_prev[old_ids[k] as int].cell_id == cc);
                    }
                }
            }
            assert forall|j: int| 0 <= j < i + 1 implies #[trigger] disks@[j].cell_id == cell_of(
                disks@[j].position,
                *sim_box,
                nx as int,
                ny as int,
            ) && disks@[j].cell_id < cells@.len() && cells@[disks@[j].cell_id as int].disk_ids@.contains(j as usize) by {
                if j == i {
                    assert(cells@[cid as int].disk_ids@[cells_before[cid as int].disk_ids@.len() as int] == i);
                } else {
                    let cj = disks_prev[j].cell_id as int;
                    assert(cells_before[cj].disk_ids@.contains(j as usize));
                    let k = choose|k: int| 0 <= k < cells_before[cj].disk_ids@.len()
                        && cells_before[cj].disk_ids@[k] == j as usize;
                    if cj == cid {
                        assert(cells@[cj].disk_ids@ == cells_before[cj].disk_ids@.push(i));
                    } else {
                        assert(cells@[cj].disk_ids@ == cells_before[cj].disk_ids@);
                    }
                    assert(cells@[cj].disk_ids@[k] == j as usize);
                }
            }
        }
    }
    let grid = Grid { nx, ny, cells };
    proof {
        lemma_in_box_disk_ok(before, *sim_box);
    }
    grid
}

proof fn lemma_floor_close(u: int, v: int, l: int)
    requires
        l >= 1,
        -l < u - v < l,
    ensures
        -1 <= u / l - v / l <= 1,
{
    lemma_fundamental_div_mod(u, l);
    lemma_fundamental_div_mod(v, l);
    lemma_mod_bound(u, l);
    lemma_mod_bound(v, l);
    assert(-1 <= u / l - v / l <= 1) by (nonlinear_arith)
        requires
            l >= 1,
            -l < u - v < l,
            u == l * (u / l) + u % l,
            v == l * (v / l) + v % l,
            0 <= u % l < l,
            0 <= v % l < l,
    ;
}

proof fn lemma_div_shift(v: int, l: int, n: int)
    requires
        l >= 1,
    ensures
        (v + n * l) / l == v / l + n,
{
    lemma_fundamental_div_mod(v, l);
    lemma_mod_bound(v, l);
    assert(v + n * l == (v / l + n) * l + v % l) by (nonlinear_arith)
        requires
            v == l * (v / l) + v % l,
    ;
    lemma_fundamental_div_mod_converse_div(v + n * l, l, v / l + n, v % l);
}

/// Along one axis, two coordinates of the box closer than `3 r` (to the
/// nearest image) fall in the same strip or in adjacent strips.
proof fn lemma_strip_near(x: int, y: int, l: int, r: int)
    requires
        1 <= l,
        1 <= r,
        0 <= x < l,
        0 <= y < l,
        min_image(x - y, l) * min_image(x - y, l) < 9 * r * r,
    ensures
        near(strip_of(x, l, grid_dim(l, r)), strip_of(y, l, grid_dim(l, r)), grid_dim(l, r)),
{
    let n = grid_dim(l, r);
    let a = strip_of(x, l, n);
    let c = strip_of(y, l, n);
    let d = min_image(x - y, l);
    lemma_strip_bound(x, l, n);
    lemma_strip_bound(y, l, n);
    assert(-3 * r < d < 3 * r) by (nonlinear_arith)
        requires
            d * d < 9 * r * r,
            r >= 1,
    ;
    if n == 1 {
        assert(a == 0 && c == 0);
    } else {
        let k = l / (3 * r);
        lemma_fundamental_div_mod(l, 3 * r);
        lemma_mod_pos_bound(l, 3 * r);
        assert(n * (3 * r) <= l) by (nonlinear_arith)
            requires
                2 <= n <= k,
                l == (3 * r) * k + l % (3 * r),
                0 <= l % (3 * r),
                r >= 1,
        ;
        assert(-l < d * n < l) by (nonlinear_arith)
            requires
                -3 * r < d < 3 * r,
                n * (3 * r) <= l,
                n >= 2,
        ;
        let u = x * n;
        let v = y * n;
        assert(u - v == (x - y) * n) by (nonlinear_arith)
            requires
                u == x * n,
                v == y * n,
        ;
        if d == x - y {
            assert(d * n == u - v);
            lemma_floor_close(u, v, l);
            if c == a + 1 {
                lemma_small_mod_one(a + 1, n);
                assert(c == (a + 1) % n);
            } else if c == a - 1 {
                assert(a + n - 1 == (a - 1) + 1 * n);
                lemma_div_shift_mod(a - 1, n, 1);
            }
        } else if d == x - y - l {
            assert(d * n == u - (v + n * l)) by (nonlinear_arith)
                requires
                    d == x - y - l,
                    u - v == (x - y) * n,
            ;
            lemma_floor_close(u, v + n * l, l);
            lemma_div_shift(v, l, n);
            assert(a == n - 1 && c == 0);
            lemma_small_mod_one(0, n);
            assert((a + 1) % n == 0) by {
                vstd::arithmetic::div_mod::lemma_mod_self_0(n);
            }
        } else {
            assert(d == x - y + l);
            assert(d * n == (u + n * l) - v) by (nonlinear_arith)
                requires
                    d == x - y + l,
                    u - v == (x - y) * n,
            ;
            lemma_floor_close(u + n * l, v, l);
            lemma_div_shift(u, l, n);
            assert(a == 0 && c == n - 1);
            lemma_small_mod_one(n - 1, n);
        }
    }
}

proof fn lemma_div_shift_mod(a: int, n: int, m: int)
    requires
        n >= 1,
        0 <= a < n,
    ensures
        (a + m * n) % n == a,
{
    lemma_fundamental_div_mod_converse_mod(a + m * n, n, m, a);
}

/// Two points of the box closer than `3 r` lie in the same or in adjacent
/// cells of the grid built for radius `r`.
pub proof fn lemma_close_points_in_near_cells(p: Position, q: Position, b: Box, r: int)
    requires
        box_ok(b),
        1 <= r,
        in_box(p, b),
        in_box(q, b),
        dist_sq_periodic(p, q, b) < 9 * r * r,
    ensures
        cells_near(
            cell_of(p, b, grid_dim(b.lx as int, r), grid_dim(b.ly as int, r)),
            cell_of(q, b, grid_dim(b.lx as int, r), grid_dim(b.ly as int, r)),
            grid_dim(b.lx as int, r),
            grid_dim(b.ly as int, r),
        ),
{
    let nx = grid_dim(b.lx as int, r);
    let ny = grid_dim(b.ly as int, r);
    let dx = min_image(p.x - q.x, b.lx as int);
    let dy = min_image(p.y - q.y, b.ly as int);
    assert(dx * dx >= 0 && dy * dy >= 0) by (nonlinear_arith);
    lemma_strip_near(p.x as int, q.x as int, b.lx as int, r);
    lemma_strip_near(p.y as int, q.y as int, b.ly as int, r);
    lemma_strip_bound(p.x as int, b.lx as int, nx);
    lemma_strip_bound(p.y as int, b.ly as int, ny);
    lemma_strip_bound(q.x as int, b.lx as int, nx);
    lemma_strip_bound(q.y as int, b.ly as int, ny);
    let (px, py) = (strip_of(p.x as int, b.lx as int, nx), strip_of(p.y as int, b.ly as int, ny));
    let (qx, qy) = (strip_of(q.x as int, b.lx as int, nx), strip_of(q.y as int, b.ly as int, ny));
    lemma_cell_bound(px, py, nx, ny);
    lemma_cell_bound(qx, qy, nx, ny);
}

proof fn lemma_sorted_unique(a: Seq<usize>, b: Seq<usize>)
    requires
        forall|k1: int, k2: int| 0 <= k1 < k2 < a.len() ==> a[k1] < a[k2],
        forall|k1: int, k2: int| 0 <= k1 < k2 < b.len() ==> b[k1] < b[k2],
        forall|x: usize| a.contains(x) <==> b.contains(x),
    ensures
        a == b,
    decreases a.len(),
{
    if a.len() == 0 {
        if b.len() > 0 {
            assert(b.contains(b[0]));
        }
        assert(a =~= b);
    } else {
        assert(a.contains(a[0]));
        assert(b.len() > 0);
        assert(b.contains(b[0]));
        let j = choose|j: int| 0 <= j < b.len() && b[j] == a[0];
        let k = choose|k: int| 0 <= k < a.len() && a[k] == b[0];
        assert(a[0] == b[0]) by {
            if j > 0 {
                assert(b[0] < b[j]);
            }
            if k > 0 {
                assert(a[0] < a[k]);
            }
        }
        let ta = a.drop_first();
        let tb = b.drop_first();
        assert forall|x: usize| ta.contains(x) <==> tb.contains(x) by {
            if ta.contains(x) {
                let t = choose|t: int| 0 <= t < ta.len() && ta[t] == x;
                assert(a[t + 1] == x && a[0] < a[t + 1]);
                assert(a.contains(x));
                let u = choose|u: int| 0 <= u < b.len() && b[u] == x;
                assert(u != 0);
                assert(tb[u - 1] == x);
            }
            if tb.contains(x) {
                let t = choose|t: int| 0 <= t < tb.len() && tb[t] == x;
                assert(b[t + 1] == x && b[0] < b[t + 1]);
                assert(b.contains(x));
                let u = choose|u: int| 0 <= u < a.len() && a[u] == x;
                assert(u != 0);
                assert(ta[u - 1] == x);
            }
        }
        lemma_sorted_unique(ta, tb);
        assert(a.len() == b.len());
        assert forall|i: int| 0 <= i < a.len() implies a[i] == b[i] by {
            if i > 0 {
                assert(a[i] == ta[i - 1]);
                assert(b[i] == tb[i - 1]);
            }
        }
        assert(a =~= b);
    }
}

/// A freshly built grid depends on the disks and the box alone: two grids
/// that both match the same disks and are both in build order are equal,
/// list for list.
pub proof fn lemma_grid_determined(g1: Grid, g2: Grid, ds: Seq<Disk>, b: Box, r: int)
    requires
        grid_ok(g1, ds, b, r),
        grid_ok(g2, ds, b, r),
        grid_canonical(g1),
        grid_canonical(g2),
    ensures
        g1.nx == g2.nx,
        g1.ny == g2.ny,
        g1.cells@.len() == g2.cells@.len(),
        forall|c: int|
            0 <= c < g1.cells@.len() ==> (#[trigger] g1.cells@[c]).disk_ids@ == g2.cells@[
                c
            ].disk_ids@ && g1.cells@[c].neighbor_ids@ == g2.cells@[c].neighbor_ids@,
{
    assert forall|c: int| 0 <= c < g1.cells@.len() implies (#[trigger] g1.cells@[c]).disk_ids@
        == g2.cells@[c].disk_ids@ && g1.cells@[c].neighbor_ids@ == g2.cells@[c].neighbor_ids@ by {
        let a = g1.cells@[c].disk_ids@;
        let bb = g2.cells@[c].disk_ids@;
        assert forall|x: usize| a.contains(x) <==> bb.contains(x) by {
            if a.contains(x) {
                let t = choose|t: int| 0 <= t < a.len() && a[t] == x;
                assert(ds[a[t] as int].cell_id == c);
                assert(g2.cells@[ds[x as int].cell_id as int].disk_ids@.contains(x));
            }
            if bb.contains(x) {
                let t = choose|t: int| 0 <= t < bb.len() && bb[t] == x;
                assert(ds[bb[t] as int].cell_id == c);
                assert(g1.cells@[ds[x as int].cell_id as int].disk_ids@.contains(x));
            }
        }
        lemma_sorted_unique(a, bb);
    }
}

} // verus!
