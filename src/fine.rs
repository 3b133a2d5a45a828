//! Fine rasterization: within one binned tile, the cells that a triangle of
//! the tile's list touches, at seed (subvoxel) resolution.
//!
//! A cell is touched when the triangle's bounding box meets the cell's box
//! and the triangle's plane passes through it (its corners do not all lie
//! strictly on one side). Several triangles touching one cell give the same
//! seed, the cell itself, so the result does not depend on their order.

use vstd::prelude::*;
use crate::coarse::{BinHeader, BinnedTile, Triangle, tri_max, tri_min, in_window, tile_index, min3, max3};
use crate::geom::IVec3;
use crate::scheduler::abs;
use crate::settings::TILE_DIM_COUNT;

verus! {

/// Most cells per tile axis of the fine stage.
pub const MAX_CELLS_PER_TILE: usize = 64;

/// Largest fixed-point coordinate magnitude the fine stage evaluates; a
/// triangle or tile beyond it is skipped, as a capacity limit.
pub const FINE_LIMIT: i64 = 0x1_0000_0000;

/// A cell within a tile, counted from the tile's corner.
#[derive(Clone, Copy, Debug, PartialEq, Eq, Structural)]
pub struct CellCoord {
    pub x: usize,
    pub y: usize,
    pub z: usize,
}

/// The touched cells of one binned tile, in x-major order.
#[derive(Clone, Debug)]
pub struct TileCells {
    pub tile: usize,
    pub cells: Vec<CellCoord>,
}

/// Window-local coordinates of the tile at table position `t`.
pub open spec fn tile_x(t: int) -> int {
    t / ((TILE_DIM_COUNT * TILE_DIM_COUNT) as int)
}

pub open spec fn tile_y(t: int) -> int {
    (t / (TILE_DIM_COUNT as int)) % (TILE_DIM_COUNT as int)
}

pub open spec fn tile_z(t: int) -> int {
    t % (TILE_DIM_COUNT as int)
}

pub open spec fn tile_coord(t: int, axis: int) -> int {
    if axis == 0 {
        tile_x(t)
    } else if axis == 1 {
        tile_y(t)
    } else {
        tile_z(t)
    }
}

pub open spec fn cell_coord(c: CellCoord, axis: int) -> int {
    if axis == 0 {
        c.x as int
    } else if axis == 1 {
        c.y as int
    } else {
        c.z as int
    }
}

/// Lower face of cell `i` along `axis` of tile `t`, in units of
/// `1 / n` fixed-point units: the window corner plus the tile plus `i` cells.
pub open spec fn cell_lo(h: BinHeader, n: int, t: int, axis: int, i: int) -> int {
    ((h.origin.at(axis) + tile_coord(t, axis)) * n + i) * h.tile_size
}

/// The triangle's vertices scaled to those units.
pub open spec fn scaled(p: IVec3, n: int, axis: int) -> int {
    p.at(axis) * n
}

/// The triangle's bounding box meets the closed box of cell `c` on `axis`.
pub open spec fn box_meets(tri: Triangle, h: BinHeader, n: int, t: int, c: CellCoord, axis: int) -> bool {
    &&& tri_min(tri, axis) * n <= cell_lo(h, n, t, axis, cell_coord(c, axis)) + h.tile_size
    &&& cell_lo(h, n, t, axis, cell_coord(c, axis)) <= tri_max(tri, axis) * n
}

/// Edge vectors and normal of the scaled triangle.
pub open spec fn edge(tri: Triangle, n: int, which: int, axis: int) -> int {
    if which == 0 {
        scaled(tri.b, n, axis) - scaled(tri.a, n, axis)
    } else {
        scaled(tri.c, n, axis) - scaled(tri.a, n, axis)
    }
}

pub open spec fn normal(tri: Triangle, n: int, axis: int) -> int {
    if axis == 0 {
        edge(tri, n, 0, 1) * edge(tri, n, 1, 2) - edge(tri, n, 0, 2) * edge(tri, n, 1, 1)
    } else if axis == 1 {
        edge(tri, n, 0, 2) * edge(tri, n, 1, 0) - edge(tri, n, 0, 0) * edge(tri, n, 1, 2)
    } else {
        edge(tri, n, 0, 0) * edge(tri, n, 1, 1) - edge(tri, n, 0, 1) * edge(tri, n, 1, 0)
    }
}

/// Corner `m` (0 to 7) of the cell's box along `axis`: bit `axis` of `m`
/// picks the upper face.
pub open spec fn corner(h: BinHeader, n: int, t: int, c: CellCoord, m: int, axis: int) -> int {
    let bit = if axis == 0 {
        m % 2
    } else if axis == 1 {
        (m / 2) % 2
    } else {
        (m / 4) % 2
    };
    cell_lo(h, n, t, axis, cell_coord(c, axis)) + bit * h.tile_size
}

/// Signed side of corner `m` relative to the triangle's plane.
pub open spec fn side(tri: Triangle, h: BinHeader, n: int, t: int, c: CellCoord, m: int) -> int {
    normal(tri, n, 0) * (corner(h, n, t, c, m, 0) - scaled(tri.a, n, 0)) + normal(tri, n, 1) * (corner(
        h,
        n,
        t,
        c,
        m,
        1,
    ) - scaled(tri.a, n, 1)) + normal(tri, n, 2) * (corner(h, n, t, c, m, 2) - scaled(tri.a, n, 2))
}

/// The plane meets the cell: some corner is on or below it and some on or above.
pub open spec fn plane_meets(tri: Triangle, h: BinHeader, n: int, t: int, c: CellCoord) -> bool {
    &&& exists|m: int| 0 <= m < 8 && #[trigger] side(tri, h, n, t, c, m) <= 0
    &&& exists|m: int| 0 <= m < 8 && #[trigger] side(tri, h, n, t, c, m) >= 0
}

/// The triangle and the tile lie within the range the fine stage evaluates.
pub open spec fn fine_range(tri: Triangle, h: BinHeader, t: int) -> bool {
    &&& forall|axis: int|
        0 <= axis < 3 ==> {
            &&& abs(#[trigger] tri.a.at(axis)) <= FINE_LIMIT
            &&& abs(tri.b.at(axis)) <= FINE_LIMIT
            &&& abs(tri.c.at(axis)) <= FINE_LIMIT
            &&& abs((h.origin.at(axis) + tile_coord(t, axis)) * h.tile_size) <= FINE_LIMIT
            &&& abs((h.origin.at(axis) + tile_coord(t, axis) + 1) * h.tile_size) <= FINE_LIMIT
        }
}

/// Triangle `tri` touches cell `c` of tile `t`.
pub open spec fn touches(tri: Triangle, h: BinHeader, n: int, t: int, c: CellCoord) -> bool {
    &&& fine_range(tri, h, t)
    &&& box_meets(tri, h, n, t, c, 0)
    &&& box_meets(tri, h, n, t, c, 1)
    &&& box_meets(tri, h, n, t, c, 2)
    &&& plane_meets(tri, h, n, t, c)
}

pub open spec fn cell_in_tile(c: CellCoord, n: int) -> bool {
    c.x < n && c.y < n && c.z < n
}

/// Some triangle of the tile's list touches cell `c`.
pub open spec fn tile_touches(tris: Seq<Triangle>, h: BinHeader, n: int, tile: BinnedTile, c: CellCoord) -> bool {
    exists|j: int|
        0 <= j < tile.ids@.len() && tile.ids@[j] < tris.len() && #[trigger] touches(
            tris[tile.ids@[j] as int],
            h,
            n,
            tile.tile as int,
            c,
        )
}

pub open spec fn cell_rank(c: CellCoord, n: int) -> int {
    (c.x * n + c.y) * n + c.z
}

proof fn lemma_mul_bound(a: int, b: int, ba: int, bb: int)
    requires
        abs(a) <= ba,
        abs(b) <= bb,
    ensures
        abs(a * b) <= ba * bb,
{
    assert(abs(a * b) == abs(a) * abs(b)) by (nonlinear_arith);
    assert(abs(a) * abs(b) <= ba * bb) by (nonlinear_arith)
        requires
            0 <= abs(a) <= ba,
            0 <= abs(b) <= bb,
    ;
}

/// Window-local coordinates of the tile at table position `t`.
pub fn tile_coords(t: usize) -> (r: (usize, usize, usize))
    requires
        t < crate::settings::TILE_COUNT,
    ensures
        r.0 as int == tile_x(t as int) && r.1 as int == tile_y(t as int) && r.2 as int == tile_z(t as int),
        in_window(r.0 as int, r.1 as int, r.2 as int),
        tile_index(r.0 as int, r.1 as int, r.2 as int) == t,
{
    let n = TILE_DIM_COUNT;
    let x = t / (n * n);
    let y = (t / n) % n;
    let z = t % n;
    proof {
        vstd::arithmetic::div_mod::lemma_fundamental_div_mod(t as int, 16);
        vstd::arithmetic::div_mod::lemma_fundamental_div_mod(t as int / 16, 16);
        vstd::arithmetic::div_mod::lemma_div_denominator(t as int, 16, 16);
    }
    (x, y, z)
}

fn coord_of(c: &IVec3, axis: usize) -> (r: i64)
    requires
        axis < 3,
    ensures
        r as int == c.at(axis as int),
{
    c.get(axis)
}

fn usize_of(t: (usize, usize, usize), axis: usize) -> (r: usize)
    requires
        axis < 3,
    ensures
        r == if axis == 0 { t.0 } else if axis == 1 { t.1 } else { t.2 },
{
    if axis == 0 {
        t.0
    } else if axis == 1 {
        t.1
    } else {
        t.2
    }
}

fn abs_i128(v: i128) -> (r: i128)
    requires
        v > i128::MIN,
    ensures
        r as int == abs(v as int),
{
    if v < 0 {
        -v
    } else {
        v
    }
}

/// Whether the triangle and tile `t` (at window-local `tc`) lie within the
/// range the fine stage evaluates.
pub fn in_fine_range(tri: &Triangle, h: &BinHeader, t: usize) -> (r: bool)
    requires
        h.valid(),
        t < crate::settings::TILE_COUNT,
    ensures
        r == fine_range(*tri, *h, t as int),
{
    let tc = tile_coords(t);
    let lim = FINE_LIMIT as i128;
    let mut axis: usize = 0;
    while axis < 3
        invariant
            axis <= 3,
            h.valid(),
            t < crate::settings::TILE_COUNT,
            tc.0 as int == tile_x(t as int) && tc.1 as int == tile_y(t as int) && tc.2 as int == tile_z(t as int),
            in_window(tc.0 as int, tc.1 as int, tc.2 as int),
            lim == FINE_LIMIT,
            forall|a: int|
                0 <= a < axis ==> {
                    &&& abs(#[trigger] tri.a.at(a)) <= FINE_LIMIT
                    &&& abs(tri.b.at(a)) <= FINE_LIMIT
                    &&& abs(tri.c.at(a)) <= FINE_LIMIT
                    &&& abs((h.origin.at(a) + tile_coord(t as int, a)) * h.tile_size) <= FINE_LIMIT
                    &&& abs((h.origin.at(a) + tile_coord(t as int, a) + 1) * h.tile_size) <= FINE_LIMIT
                },
        decreases 3 - axis,
    {
        let o = coord_of(&h.origin, axis);
        let k = usize_of(tc, axis);
        proof {
            crate::region::lemma_boundary_fits(o as int, k as int, h.tile_size as int);
            crate::region::lemma_boundary_fits(o as int, k + 1, h.tile_size as int);
        }
        let lo = (o as i128 + k as i128) * (h.tile_size as i128);
        let hi = (o as i128 + k as i128 + 1) * (h.tile_size as i128);
        if abs_i128(coord_of(&tri.a, axis) as i128) > lim || abs_i128(coord_of(&tri.b, axis) as i128) > lim
            || abs_i128(coord_of(&tri.c, axis) as i128) > lim || abs_i128(lo) > lim || abs_i128(hi) > lim {
            proof {
                assert(tile_coord(t as int, axis as int) == k);
                assert(!({
                    &&& abs(tri.a.at(axis as int)) <= FINE_LIMIT
                    &&& abs(tri.b.at(axis as int)) <= FINE_LIMIT
                    &&& abs(tri.c.at(axis as int)) <= FINE_LIMIT
                    &&& abs((h.origin.at(axis as int) + tile_coord(t as int, axis as int)) * h.tile_size) <= FINE_LIMIT
                    &&& abs((h.origin.at(axis as int) + tile_coord(t as int, axis as int) + 1) * h.tile_size)
                        <= FINE_LIMIT
                }));
            }
            return false;
        }
        proof {
            assert(tile_coord(t as int, axis as int) == k);
            assert(lo == (h.origin.at(axis as int) + tile_coord(t as int, axis as int)) * h.tile_size);
            assert(hi == (h.origin.at(axis as int) + tile_coord(t as int, axis as int) + 1) * h.tile_size);
            assert(abs(tri.a.at(axis as int)) <= FINE_LIMIT);
        }
        axis = axis + 1;
    }
    true
}

/// The quantities of one axis that the touch test reads, all in units of
/// `1 / n` fixed-point units.
struct AxisTerms {
    lo: i128,
    size: i128,
    a: i128,
    b: i128,
    c: i128,
}

pub open spec fn b_coord() -> int {
    0x100_0000_0000
}

fn axis_terms(
    tri: &Triangle,
    h: &BinHeader,
    n: usize,
    t: usize,
    tc: (usize, usize, usize),
    cell: CellCoord,
    axis: usize,
) -> (r: AxisTerms)
    requires
        h.valid(),
        1 <= n <= MAX_CELLS_PER_TILE,
        t < crate::settings::TILE_COUNT,
        tc.0 as int == tile_x(t as int) && tc.1 as int == tile_y(t as int) && tc.2 as int == tile_z(t as int),
        in_window(tc.0 as int, tc.1 as int, tc.2 as int),
        cell_in_tile(cell, n as int),
        fine_range(*tri, *h, t as int),
        axis < 3,
    ensures
        r.lo as int == cell_lo(*h, n as int, t as int, axis as int, cell_coord(cell, axis as int)),
        r.size as int == h.tile_size,
        r.a as int == scaled(tri.a, n as int, axis as int),
        r.b as int == scaled(tri.b, n as int, axis as int),
        r.c as int == scaled(tri.c, n as int, axis as int),
        abs(r.lo as int) <= b_coord(),
        1 <= r.size <= b_coord(),
        abs(r.a as int) <= b_coord() && abs(r.b as int) <= b_coord() && abs(r.c as int) <= b_coord(),
{
    let o = coord_of(&h.origin, axis);
    let k = usize_of(tc, axis);
    let i = if axis == 0 {
        cell.x
    } else if axis == 1 {
        cell.y
    } else {
        cell.z
    };
    proof {
        assert(abs(tri.a.at(axis as int)) <= FINE_LIMIT);
        crate::region::lemma_boundary_fits(o as int, k as int, h.tile_size as int);
        crate::region::lemma_boundary_fits(o as int, k + 1, h.tile_size as int);
        assert(tile_coord(t as int, axis as int) == k);
        assert(o == h.origin.at(axis as int));
        assert(abs((o + k) * h.tile_size) <= FINE_LIMIT);
        assert(abs((o + k + 1) * h.tile_size) <= FINE_LIMIT);
        assert((o + k + 1) * h.tile_size == (o + k) * h.tile_size + h.tile_size) by (nonlinear_arith);
    }
    let base = (o as i128 + k as i128) * (h.tile_size as i128);
    let size = h.tile_size as i128;
    proof {
        lemma_mul_bound(base as int, n as int, FINE_LIMIT as int, 64);
        lemma_mul_bound(i as int, size as int, 64, 2 * FINE_LIMIT as int);
        assert(((o + k) * n + i) * h.tile_size == (o + k) * h.tile_size * n + i * h.tile_size) by (nonlinear_arith);
        assert(abs(tri.a.at(axis as int)) <= FINE_LIMIT);
        lemma_mul_bound(tri.a.at(axis as int), n as int, FINE_LIMIT as int, 64);
        lemma_mul_bound(tri.b.at(axis as int), n as int, FINE_LIMIT as int, 64);
        lemma_mul_bound(tri.c.at(axis as int), n as int, FINE_LIMIT as int, 64);
    }
    let lo = base * (n as i128) + (i as i128) * size;
    let a = coord_of(&tri.a, axis) as i128 * n as i128;
    let b = coord_of(&tri.b, axis) as i128 * n as i128;
    let c = coord_of(&tri.c, axis) as i128 * n as i128;
    AxisTerms { lo, size, a, b, c }
}

proof fn lemma_min_max_scaled(a: int, b: int, c: int, n: int)
    requires
        n >= 1,
    ensures
        min3(a, b, c) * n == min3(a * n, b * n, c * n),
        max3(a, b, c) * n == max3(a * n, b * n, c * n),
{
    assert(a <= b ==> a * n <= b * n) by (nonlinear_arith)
        requires
            n >= 1,
    ;
    assert(b <= a ==> b * n <= a * n) by (nonlinear_arith)
        requires
            n >= 1,
    ;
    assert(a <= c ==> a * n <= c * n) by (nonlinear_arith)
        requires
            n >= 1,
    ;
    assert(c <= a ==> c * n <= a * n) by (nonlinear_arith)
        requires
            n >= 1,
    ;
    assert(b <= c ==> b * n <= c * n) by (nonlinear_arith)
        requires
            n >= 1,
    ;
    assert(c <= b ==> c * n <= b * n) by (nonlinear_arith)
        requires
            n >= 1,
    ;
    assert(a < b ==> a * n < b * n) by (nonlinear_arith)
        requires
            n >= 1,
    ;
    assert(b < a ==> b * n < a * n) by (nonlinear_arith)
        requires
            n >= 1,
    ;
    assert(a < c ==> a * n < c * n) by (nonlinear_arith)
        requires
            n >= 1,
    ;
    assert(c < a ==> c * n < a * n) by (nonlinear_arith)
        requires
            n >= 1,
    ;
    assert(b < c ==> b * n < c * n) by (nonlinear_arith)
        requires
            n >= 1,
    ;
    assert(c < b ==> c * n < b * n) by (nonlinear_arith)
        requires
            n >= 1,
    ;
}

fn min3_wide(a: i128, b: i128, c: i128) -> (r: i128)
    ensures
        r as int == min3(a as int, b as int, c as int),
{
    if a <= b && a <= c {
        a
    } else if b <= c {
        b
    } else {
        c
    }
}

fn max3_wide(a: i128, b: i128, c: i128) -> (r: i128)
    ensures
        r as int == max3(a as int, b as int, c as int),
{
    if a >= b && a >= c {
        a
    } else if b >= c {
        b
    } else {
        c
    }
}

fn box_meets_exec(
    tri: &Triangle,
    h: &BinHeader,
    n: usize,
    t: usize,
    cell: CellCoord,
    axis: usize,
    r: &AxisTerms,
) -> (m: bool)
    requires
        n >= 1,
        axis < 3,
        r.lo as int == cell_lo(*h, n as int, t as int, axis as int, cell_coord(cell, axis as int)),
        r.size as int == h.tile_size,
        r.a as int == scaled(tri.a, n as int, axis as int),
        r.b as int == scaled(tri.b, n as int, axis as int),
        r.c as int == scaled(tri.c, n as int, axis as int),
        abs(r.lo as int) <= b_coord(),
        1 <= r.size <= b_coord(),
    ensures
        m == box_meets(*tri, *h, n as int, t as int, cell, axis as int),
{
    proof {
        lemma_min_max_scaled(tri.a.at(axis as int), tri.b.at(axis as int), tri.c.at(axis as int), n as int);
    }
    let smin = min3_wide(r.a, r.b, r.c);
    let smax = max3_wide(r.a, r.b, r.c);
    smin <= r.lo + r.size && r.lo <= smax
}

pub open spec fn b_edge() -> int {
    0x200_0000_0000
}

pub open spec fn b_normal() -> int {
    0x8_0000_0000_0000_0000_0000
}

pub open spec fn b_offset() -> int {
    0x400_0000_0000
}

fn cross_term(p: i128, q: i128, u: i128, v: i128) -> (r: i128)
    requires
        abs(p as int) <= b_edge(),
        abs(q as int) <= b_edge(),
        abs(u as int) <= b_edge(),
        abs(v as int) <= b_edge(),
    ensures
        r as int == p * q - u * v,
        abs(r as int) <= b_normal(),
{
    proof {
        lemma_mul_bound(p as int, q as int, b_edge(), b_edge());
        lemma_mul_bound(u as int, v as int, b_edge(), b_edge());
    }
    p * q - u * v
}

fn dot_term(nx: i128, ny: i128, nz: i128, dx: i128, dy: i128, dz: i128) -> (r: i128)
    requires
        abs(nx as int) <= b_normal() && abs(ny as int) <= b_normal() && abs(nz as int) <= b_normal(),
        abs(dx as int) <= b_offset() && abs(dy as int) <= b_offset() && abs(dz as int) <= b_offset(),
    ensures
        r as int == nx * dx + ny * dy + nz * dz,
{
    proof {
        lemma_mul_bound(nx as int, dx as int, b_normal(), b_offset());
        lemma_mul_bound(ny as int, dy as int, b_normal(), b_offset());
        lemma_mul_bound(nz as int, dz as int, b_normal(), b_offset());
    }
    nx * dx + ny * dy + nz * dz
}

fn corner_exec(r: &AxisTerms, bit: usize) -> (c: i128)
    requires
        bit < 2,
        abs(r.lo as int) <= b_coord(),
        1 <= r.size <= b_coord(),
    ensures
        c as int == r.lo + bit * r.size,
        abs(c as int) <= 2 * b_coord(),
{
    if bit == 1 {
        r.lo + r.size
    } else {
        r.lo
    }
}

/// Whether triangle `tri` touches cell `cell` of tile `t`.
pub fn touches_cell(tri: &Triangle, h: &BinHeader, n: usize, t: usize, cell: CellCoord) -> (r: bool)
    requires
        h.valid(),
        1 <= n <= MAX_CELLS_PER_TILE,
        t < crate::settings::TILE_COUNT,
        cell_in_tile(cell, n as int),
    ensures
        r == touches(*tri, *h, n as int, t as int, cell),
{
    if !in_fine_range(tri, h, t) {
        return false;
    }
    let tc = tile_coords(t);
    let rx = axis_terms(tri, h, n, t, tc, cell, 0);
    let ry = axis_terms(tri, h, n, t, tc, cell, 1);
    let rz = axis_terms(tri, h, n, t, tc, cell, 2);
    if !box_meets_exec(tri, h, n, t, cell, 0, &rx) || !box_meets_exec(tri, h, n, t, cell, 1, &ry)
        || !box_meets_exec(tri, h, n, t, cell, 2, &rz) {
        return false;
    }
    let e0x = rx.b - rx.a;
    let e0y = ry.b - ry.a;
    let e0z = rz.b - rz.a;
    let e1x = rx.c - rx.a;
    let e1y = ry.c - ry.a;
    let e1z = rz.c - rz.a;
    let nx = cross_term(e0y, e1z, e0z, e1y);
    let ny = cross_term(e0z, e1x, e0x, e1z);
    let nz = cross_term(e0x, e1y, e0y, e1x);
    proof {
        assert(nx as int == normal(*tri, n as int, 0));
        assert(ny as int == normal(*tri, n as int, 1));
        assert(nz as int == normal(*tri, n as int, 2));
    }
    let mut below = false;
    let mut above = false;
    let mut m: usize = 0;
    while m < 8
        invariant
            m <= 8,
            abs(rx.lo as int) <= b_coord() && 1 <= rx.size <= b_coord() && abs(rx.a as int) <= b_coord(),
            abs(ry.lo as int) <= b_coord() && 1 <= ry.size <= b_coord() && abs(ry.a as int) <= b_coord(),
            abs(rz.lo as int) <= b_coord() && 1 <= rz.size <= b_coord() && abs(rz.a as int) <= b_coord(),
            rx.lo as int == cell_lo(*h, n as int, t as int, 0, cell_coord(cell, 0)),
            ry.lo as int == cell_lo(*h, n as int, t as int, 1, cell_coord(cell, 1)),
            rz.lo as int == cell_lo(*h, n as int, t as int, 2, cell_coord(cell, 2)),
            rx.size == h.tile_size && ry.size == h.tile_size && rz.size == h.tile_size,
            rx.a as int == scaled(tri.a, n as int, 0),
            ry.a as int == scaled(tri.a, n as int, 1),
            rz.a as int == scaled(tri.a, n as int, 2),
            nx as int == normal(*tri, n as int, 0),
            ny as int == normal(*tri, n as int, 1),
            nz as int == normal(*tri, n as int, 2),
            abs(nx as int) <= b_normal() && abs(ny as int) <= b_normal() && abs(nz as int) <= b_normal(),
            below == exists|q: int| 0 <= q < m && #[trigger] side(*tri, *h, n as int, t as int, cell, q) <= 0,
            above == exists|q: int| 0 <= q < m && #[trigger] side(*tri, *h, n as int, t as int, cell, q) >= 0,
        decreases 8 - m,
    {
        let cx = corner_exec(&rx, m % 2);
        let cy = corner_exec(&ry, (m / 2) % 2);
        let cz = corner_exec(&rz, (m / 4) % 2);
        let sd = dot_term(nx, ny, nz, cx - rx.a, cy - ry.a, cz - rz.a);
        proof {
            assert(cx as int == corner(*h, n as int, t as int, cell, m as int, 0));
            assert(cy as int == corner(*h, n as int, t as int, cell, m as int, 1));
            assert(cz as int == corner(*h, n as int, t as int, cell, m as int, 2));
            assert(sd as int == side(*tri, *h, n as int, t as int, cell, m as int));
        }
        let ghost b0 = below;
        let ghost a0 = above;
        if sd <= 0 {
            below = true;
        }
        if sd >= 0 {
            above = true;
        }
        proof {
            if b0 {
                let q = choose|q: int| 0 <= q < m && #[trigger] side(*tri, *h, n as int, t as int, cell, q) <= 0;
                assert(0 <= q < m + 1 && side(*tri, *h, n as int, t as int, cell, q) <= 0);
            }
            if a0 {
                let q = choose|q: int| 0 <= q < m && #[trigger] side(*tri, *h, n as int, t as int, cell, q) >= 0;
                assert(0 <= q < m + 1 && side(*tri, *h, n as int, t as int, cell, q) >= 0);
            }
        }
        m = m + 1;
    }
    below && above
}

/// Whether some triangle of the tile's list touches cell `cell`.
fn any_touches(tile: &BinnedTile, tris: &Vec<Triangle>, h: &BinHeader, n: usize, cell: CellCoord) -> (r: bool)
    requires
        h.valid(),
        1 <= n <= MAX_CELLS_PER_TILE,
        tile.tile < crate::settings::TILE_COUNT,
        cell_in_tile(cell, n as int),
    ensures
        r == tile_touches(tris@, *h, n as int, *tile, cell),
{
    let mut j: usize = 0;
    while j < tile.ids.len()
        invariant
            h.valid(),
            1 <= n <= MAX_CELLS_PER_TILE,
            tile.tile < crate::settings::TILE_COUNT,
            cell_in_tile(cell, n as int),
            j <= tile.ids@.len(),
            forall|q: int|
                0 <= q < j ==> !(tile.ids@[q] < tris@.len() && #[trigger] touches(
                    tris@[tile.ids@[q] as int],
                    *h,
                    n as int,
                    tile.tile as int,
                    cell,
                )),
        decreases tile.ids@.len() - j,
    {
        let id = tile.ids[j];
        if id < tris.len() && touches_cell(&tris[id], h, n, tile.tile, cell) {
            return true;
        }
        j = j + 1;
    }
    false
}

/// The cells of a binned tile that a triangle of its list touches, in
/// x-major order. Ids past the triangle list are ignored.
pub fn rasterize_tile(tile: &BinnedTile, tris: &Vec<Triangle>, h: &BinHeader, n: usize) -> (r: TileCells)
    requires
        h.valid(),
        1 <= n <= MAX_CELLS_PER_TILE,
        tile.tile < crate::settings::TILE_COUNT,
    ensures
        r.tile == tile.tile,
        forall|i: int, j: int| 0 <= i < j < r.cells@.len() ==> cell_rank(r.cells@[i], n as int) < cell_rank(r.cells@[j], n as int),
        forall|i: int| 0 <= i < r.cells@.len() ==> cell_in_tile(#[trigger] r.cells@[i], n as int),
        forall|c: CellCoord|
            cell_in_tile(c, n as int) ==> (r.cells@.contains(c) <==> #[trigger] tile_touches(tris@, *h, n as int, *tile, c)),
{
    proof {
        crate::seeds::lemma_dim_cube(n as int);
    }
    let total = n * n * n;
    let mut cells: Vec<CellCoord> = Vec::new();
    let mut x: usize = 0;
    let mut y: usize = 0;
    let mut z: usize = 0;
    let mut idx: usize = 0;
    while idx < total
        invariant
            h.valid(),
            1 <= n <= MAX_CELLS_PER_TILE,
            tile.tile < crate::settings::TILE_COUNT,
            total == n * n * n,
            idx <= total,
            idx < total ==> x < n,
            y < n && z < n,
            idx == cell_rank(CellCoord { x, y, z }, n as int),
            forall|i: int, j: int| 0 <= i < j < cells@.len() ==> cell_rank(cells@[i], n as int) < cell_rank(cells@[j], n as int),
            forall|i: int| 0 <= i < cells@.len() ==> cell_in_tile(#[trigger] cells@[i], n as int) && cell_rank(cells@[i], n as int) < idx,
            forall|c: CellCoord|
                cell_in_tile(c, n as int) ==> (cells@.contains(c) <==> (cell_rank(c, n as int) < idx && #[trigger] tile_touches(
                    tris@,
                    *h,
                    n as int,
                    *tile,
                    c,
                ))),
        decreases total - idx,
    {
        let cell = CellCoord { x, y, z };
        let ghost before = cells@;
        let hit = any_touches(tile, tris, h, n, cell);
        if hit {
            cells.push(cell);
        }
        proof {
            assert forall|c: CellCoord| cell_in_tile(c, n as int) implies (cells@.contains(c) <==> (cell_rank(c, n as int)
                < idx + 1 && #[trigger] tile_touches(tris@, *h, n as int, *tile, c))) by {
                crate::seeds::lemma_cell_index(n as int, c.x as int, c.y as int, c.z as int, x as int, y as int, z as int);
                if cells@.contains(c) {
                    let w = choose|w: int| 0 <= w < cells@.len() && cells@[w] == c;
                    if w < before.len() {
                        assert(before[w] == c);
                        assert(before.contains(c));
                    }
                }
                if before.contains(c) {
                    let w = choose|w: int| 0 <= w < before.len() && before[w] == c;
                    assert(cells@[w] == c);
                }
                if c == cell && hit {
                    assert(cells@[before.len() as int] == c);
                }
            }
        }
        idx = idx + 1;
        if z + 1 < n {
            z = z + 1;
        } else {
            z = 0;
            if y + 1 < n {
                proof {
                    assert((x * n + y + 1) * n == (x * n + y) * n + n) by (nonlinear_arith);
                }
                y = y + 1;
            } else {
                proof {
                    assert(((x + 1) * n + 0) * n == (x * n + y) * n + n) by (nonlinear_arith)
                        requires
                            y + 1 == n,
                    ;
                    assert(x + 1 < n || idx == total) by (nonlinear_arith)
                        requires
                            idx == ((x + 1) * n + 0) * n,
                            total == n * n * n,
                            x < n,
                            n >= 1,
                    ;
                }
                y = 0;
                x = x + 1;
            }
        }
    }
    proof {
        assert forall|c: CellCoord| cell_in_tile(c, n as int) implies cell_rank(c, n as int) < idx by {
            crate::seeds::lemma_cell_index(n as int, c.x as int, c.y as int, c.z as int, c.x as int, c.y as int, c.z as int);
        }
    }
    TileCells { tile: tile.tile, cells }
}

/// Cell `(gx, gy, gz)` of the seed volume is cell `c` of tile `t`.
pub open spec fn global_cell(t: int, c: CellCoord, n: int, gx: int, gy: int, gz: int) -> bool {
    &&& gx == tile_x(t) * n + c.x
    &&& gy == tile_y(t) * n + c.y
    &&& gz == tile_z(t) * n + c.z
}

/// Some touched cell of a rasterized tile, among the entries before
/// `(k, m)` in order, is cell `(gx, gy, gz)` of the seed volume.
pub open spec fn marked_before(tiles: Seq<TileCells>, n: int, k: int, m: int, gx: int, gy: int, gz: int) -> bool {
    exists|k2: int, m2: int|
        0 <= k2 < tiles.len() && 0 <= m2 < tiles[k2].cells@.len() && (k2 < k || (k2 == k && m2 < m))
            && #[trigger] global_cell(tiles[k2].tile as int, tiles[k2].cells@[m2], n, gx, gy, gz)
}

/// Some touched cell of the rasterized tiles is cell `(gx, gy, gz)`.
pub open spec fn marked(tiles: Seq<TileCells>, n: int, gx: int, gy: int, gz: int) -> bool {
    marked_before(tiles, n, tiles.len() as int, 0, gx, gy, gz)
}

/// The seed-volume cells of the tiles of a window-local region.
pub open spec fn region_cells(g: crate::region::TileRegion, n: int) -> crate::seeds::CellBox {
    crate::seeds::CellBox {
        lo_x: (g.lo_x * n) as usize,
        lo_y: (g.lo_y * n) as usize,
        lo_z: (g.lo_z * n) as usize,
        hi_x: (g.hi_x * n) as usize,
        hi_y: (g.hi_y * n) as usize,
        hi_z: (g.hi_z * n) as usize,
    }
}

pub open spec fn cell_seed(x: int, y: int, z: int) -> IVec3 {
    IVec3 { x: x as i64, y: y as i64, z: z as i64 }
}

impl crate::seeds::SeedVolume {
    /// Empties every cell of `b`, leaving the others as they were.
    pub fn clear_box(&mut self, b: crate::seeds::CellBox)
        requires
            old(self).wf(),
            b.within(old(self).dim_view()),
        ensures
            final(self).wf(),
            final(self).dim_view() == old(self).dim_view(),
            forall|x: int, y: int, z: int|
                crate::seeds::in_volume(old(self).dim_view(), x, y, z) ==> #[trigger] final(self).at(x, y, z) == if b.contains(
                    x,
                    y,
                    z,
                ) {
                    None
                } else {
                    old(self).at(x, y, z)
                },
    {
        let ghost d = self.dim_view();
        let mut x: usize = b.lo_x;
        while x < b.hi_x
            invariant
                self.wf(),
                self.dim_view() == d,
                d == old(self).dim_view(),
                b.within(d),
                b.lo_x <= x <= b.hi_x,
                forall|p: int, q: int, r: int|
                    crate::seeds::in_volume(d, p, q, r) ==> #[trigger] self.at(p, q, r) == if b.contains(p, q, r) && p < x {
                        None
                    } else {
                        old(self).at(p, q, r)
                    },
            decreases b.hi_x - x,
        {
            let mut y: usize = b.lo_y;
            while y < b.hi_y
                invariant
                    self.wf(),
                    self.dim_view() == d,
                    d == old(self).dim_view(),
                    b.within(d),
                    b.lo_x <= x < b.hi_x,
                    b.lo_y <= y <= b.hi_y,
                    forall|p: int, q: int, r: int|
                        crate::seeds::in_volume(d, p, q, r) ==> #[trigger] self.at(p, q, r) == if b.contains(p, q, r) && (p
                            < x || (p == x && q < y)) {
                            None
                        } else {
                            old(self).at(p, q, r)
                        },
                decreases b.hi_y - y,
            {
                let mut z: usize = b.lo_z;
                while z < b.hi_z
                    invariant
                        self.wf(),
                        self.dim_view() == d,
                        d == old(self).dim_view(),
                        b.within(d),
                        b.lo_x <= x < b.hi_x,
                        b.lo_y <= y < b.hi_y,
                        b.lo_z <= z <= b.hi_z,
                        forall|p: int, q: int, r: int|
                            crate::seeds::in_volume(d, p, q, r) ==> #[trigger] self.at(p, q, r) == if b.contains(p, q, r)
                                && (p < x || (p == x && (q < y || (q == y && r < z)))) {
                                None
                            } else {
                                old(self).at(p, q, r)
                            },
                    decreases b.hi_z - z,
                {
                    self.set(x, y, z, None);
                    z = z + 1;
                }
                y = y + 1;
            }
            x = x + 1;
        }
    }

    /// Blends rasterized tiles into the seed volume over the tiles of
    /// `region`: a cell that any of them touched, through a tile's own list
    /// or an overflow tile at the same place, seeds itself; every other cell
    /// of the region is emptied. Cells outside the region are untouched.
    pub fn seed_tiles(&mut self, region: crate::region::TileRegion, n: usize, tiles: &Vec<TileCells>)
        requires
            old(self).wf(),
            1 <= n <= MAX_CELLS_PER_TILE,
            old(self).dim_view() == TILE_DIM_COUNT * n,
            region.within_window(),
            forall|k: int|
                0 <= k < tiles@.len() ==> (#[trigger] tiles@[k]).tile < crate::settings::TILE_COUNT && forall|m: int|
                    0 <= m < tiles@[k].cells@.len() ==> cell_in_tile(#[trigger] tiles@[k].cells@[m], n as int),
        ensures
            final(self).wf(),
            final(self).dim_view() == old(self).dim_view(),
            forall|x: int, y: int, z: int|
                crate::seeds::in_volume(old(self).dim_view(), x, y, z) ==> #[trigger] final(self).at(x, y, z) == if region_cells(
                    region,
                    n as int,
                ).contains(x, y, z) {
                    if marked(tiles@, n as int, x, y, z) {
                        Some(cell_seed(x, y, z))
                    } else {
                        None
                    }
                } else {
                    old(self).at(x, y, z)
                },
    {
        let ghost d = self.dim_view();
        assert(region.lo(0) <= region.hi(0) <= 16 && region.lo(1) <= region.hi(1) <= 16 && region.lo(2) <= region.hi(2) <= 16);
        proof {
            assert(region.hi_x * n <= 16 * n && region.lo_x * n <= region.hi_x * n) by (nonlinear_arith)
                requires
                    region.lo_x <= region.hi_x <= 16,
                    n >= 1,
            ;
            assert(region.hi_y * n <= 16 * n && region.lo_y * n <= region.hi_y * n) by (nonlinear_arith)
                requires
                    region.lo_y <= region.hi_y <= 16,
                    n >= 1,
            ;
            assert(region.hi_z * n <= 16 * n && region.lo_z * n <= region.hi_z * n) by (nonlinear_arith)
                requires
                    region.lo_z <= region.hi_z <= 16,
                    n >= 1,
            ;
        }
        let b = crate::seeds::CellBox {
            lo_x: region.lo_x * n,
            lo_y: region.lo_y * n,
            lo_z: region.lo_z * n,
            hi_x: region.hi_x * n,
            hi_y: region.hi_y * n,
            hi_z: region.hi_z * n,
        };
        assert(b == region_cells(region, n as int));
        self.clear_box(b);
        let mut k: usize = 0;
        while k < tiles.len()
            invariant
                self.wf(),
                self.dim_view() == d,
                d == old(self).dim_view(),
                d == TILE_DIM_COUNT * n,
                1 <= n <= MAX_CELLS_PER_TILE,
                b == region_cells(region, n as int),
                k <= tiles@.len(),
                forall|k2: int|
                    0 <= k2 < tiles@.len() ==> (#[trigger] tiles@[k2]).tile < crate::settings::TILE_COUNT && forall|m: int|
                        0 <= m < tiles@[k2].cells@.len() ==> cell_in_tile(#[trigger] tiles@[k2].cells@[m], n as int),
                forall|x: int, y: int, z: int|
                    crate::seeds::in_volume(d, x, y, z) ==> #[trigger] self.at(x, y, z) == if b.contains(x, y, z) {
                        if marked_before(tiles@, n as int, k as int, 0, x, y, z) {
                            Some(cell_seed(x, y, z))
                        } else {
                            None
                        }
                    } else {
                        old(self).at(x, y, z)
                    },
            decreases tiles@.len() - k,
        {
            let tc = tile_coords(tiles[k].tile);
            let mut m: usize = 0;
            while m < tiles[k].cells.len()
                invariant
                    self.wf(),
                    self.dim_view() == d,
                    d == old(self).dim_view(),
                    d == TILE_DIM_COUNT * n,
                    1 <= n <= MAX_CELLS_PER_TILE,
                    b == region_cells(region, n as int),
                    k < tiles@.len(),
                    m <= tiles@[k as int].cells@.len(),
                    tc.0 as int == tile_x(tiles@[k as int].tile as int),
                    tc.1 as int == tile_y(tiles@[k as int].tile as int),
                    tc.2 as int == tile_z(tiles@[k as int].tile as int),
                    in_window(tc.0 as int, tc.1 as int, tc.2 as int),
                    forall|k2: int|
                        0 <= k2 < tiles@.len() ==> (#[trigger] tiles@[k2]).tile < crate::settings::TILE_COUNT && forall|m2: int|
                            0 <= m2 < tiles@[k2].cells@.len() ==> cell_in_tile(#[trigger] tiles@[k2].cells@[m2], n as int),
                    forall|x: int, y: int, z: int|
                        crate::seeds::in_volume(d, x, y, z) ==> #[trigger] self.at(x, y, z) == if b.contains(x, y, z) {
                            if marked_before(tiles@, n as int, k as int, m as int, x, y, z) {
                                Some(cell_seed(x, y, z))
                            } else {
                                None
                            }
                        } else {
                            old(self).at(x, y, z)
                        },
                decreases tiles@[k as int].cells@.len() - m,
            {
                let c = tiles[k].cells[m];
                assert(cell_in_tile(tiles@[k as int].cells@[m as int], n as int));
                proof {
                    assert(tc.0 * n + c.x < 16 * n && tc.1 * n + c.y < 16 * n && tc.2 * n + c.z < 16 * n) by (nonlinear_arith)
                        requires
                            tc.0 < 16 && tc.1 < 16 && tc.2 < 16,
                            c.x < n && c.y < n && c.z < n,
                    ;
                }
                let gx = tc.0 * n + c.x;
                let gy = tc.1 * n + c.y;
                let gz = tc.2 * n + c.z;
                let ghost before = *self;
                if b.lo_x <= gx && gx < b.hi_x && b.lo_y <= gy && gy < b.hi_y && b.lo_z <= gz && gz < b.hi_z {
                    self.set(gx, gy, gz, Some(IVec3 { x: gx as i64, y: gy as i64, z: gz as i64 }));
                }
                proof {
                    assert(global_cell(tiles@[k as int].tile as int, c, n as int, gx as int, gy as int, gz as int));
                    assert forall|x: int, y: int, z: int| crate::seeds::in_volume(d, x, y, z) implies #[trigger] self.at(
                        x,
                        y,
                        z,
                    ) == if b.contains(x, y, z) {
                        if marked_before(tiles@, n as int, k as int, m + 1, x, y, z) {
                            Some(cell_seed(x, y, z))
                        } else {
                            None
                        }
                    } else {
                        old(self).at(x, y, z)
                    } by {
                        assert(before.at(x, y, z) == self.at(x, y, z) || (x == gx && y == gy && z == gz));
                        if marked_before(tiles@, n as int, k as int, m + 1, x, y, z) && !(x == gx && y == gy && z == gz) {
                            let (k2, m2) = choose|k2: int, m2: int|
                                0 <= k2 < tiles@.len() && 0 <= m2 < tiles@[k2].cells@.len() && (k2 < k || (k2 == k && m2
                                    < m + 1)) && #[trigger] global_cell(tiles@[k2].tile as int, tiles@[k2].cells@[m2], n as int, x, y, z);
                            assert(!(k2 == k && m2 == m));
                            assert(marked_before(tiles@, n as int, k as int, m as int, x, y, z));
                        }
                        if marked_before(tiles@, n as int, k as int, m as int, x, y, z) {
                            let (k2, m2) = choose|k2: int, m2: int|
                                0 <= k2 < tiles@.len() && 0 <= m2 < tiles@[k2].cells@.len() && (k2 < k || (k2 == k && m2
                                    < m)) && #[trigger] global_cell(tiles@[k2].tile as int, tiles@[k2].cells@[m2], n as int, x, y, z);
                            assert(marked_before(tiles@, n as int, k as int, m + 1, x, y, z));
                        }
                        if x == gx && y == gy && z == gz {
                            assert(marked_before(tiles@, n as int, k as int, m + 1, x, y, z));
                        }
                    }
                }
                m = m + 1;
            }
            proof {
                assert forall|x: int, y: int, z: int| #![trigger marked_before(tiles@, n as int, k + 1, 0, x, y, z)]
                    marked_before(tiles@, n as int, k as int, tiles@[k as int].cells@.len() as int, x, y, z)
                        == marked_before(tiles@, n as int, k + 1, 0, x, y, z) by {
                    if marked_before(tiles@, n as int, k + 1, 0, x, y, z) {
                        let (k2, m2) = choose|k2: int, m2: int|
                            0 <= k2 < tiles@.len() && 0 <= m2 < tiles@[k2].cells@.len() && (k2 < k + 1 || (k2 == k + 1
                                && m2 < 0)) && #[trigger] global_cell(tiles@[k2].tile as int, tiles@[k2].cells@[m2], n as int, x, y, z);
                        assert(marked_before(tiles@, n as int, k as int, tiles@[k as int].cells@.len() as int, x, y, z));
                    }
                    if marked_before(tiles@, n as int, k as int, tiles@[k as int].cells@.len() as int, x, y, z) {
                        let (k2, m2) = choose|k2: int, m2: int|
                            0 <= k2 < tiles@.len() && 0 <= m2 < tiles@[k2].cells@.len() && (k2 < k || (k2 == k && m2
                                < tiles@[k as int].cells@.len())) && #[trigger] global_cell(tiles@[k2].tile as int, tiles@[k2].cells@[m2], n as int, x, y, z);
                        assert(marked_before(tiles@, n as int, k + 1, 0, x, y, z));
                    }
                }
            }
            k = k + 1;
        }
    }
}

} // verus!
