//! The redraw sub-regions of a cascade update: slabs of tiles in window-local
//! coordinates, and the same slabs as world-space clip boxes.

use vstd::prelude::*;
use crate::geom::IVec3;
use crate::scheduler::abs;
use crate::settings::TILE_DIM_COUNT;

verus! {

/// Tiles `lo_a <= t < hi_a` on each axis `a`, counted from the window corner.
#[derive(Clone, Copy, Debug, PartialEq, Eq, Structural)]
pub struct TileRegion {
    pub lo_x: usize,
    pub lo_y: usize,
    pub lo_z: usize,
    pub hi_x: usize,
    pub hi_y: usize,
    pub hi_z: usize,
}

/// A closed world-space box, in fixed-point units.
#[derive(Clone, Copy, Debug, PartialEq, Eq, Structural)]
pub struct ClipBox {
    pub min_x: i128,
    pub min_y: i128,
    pub min_z: i128,
    pub max_x: i128,
    pub max_y: i128,
    pub max_z: i128,
}

impl TileRegion {
    pub open spec fn lo(self, axis: int) -> int {
        if axis == 0 {
            self.lo_x as int
        } else if axis == 1 {
            self.lo_y as int
        } else {
            self.lo_z as int
        }
    }

    pub open spec fn hi(self, axis: int) -> int {
        if axis == 0 {
            self.hi_x as int
        } else if axis == 1 {
            self.hi_y as int
        } else {
            self.hi_z as int
        }
    }

    /// Lies inside the window.
    pub open spec fn within_window(self) -> bool {
        forall|a: int| 0 <= a < 3 ==> #[trigger] self.lo(a) <= self.hi(a) <= TILE_DIM_COUNT as int
    }

    /// Holds the window-local tile `(x, y, z)`.
    pub open spec fn contains(self, x: int, y: int, z: int) -> bool {
        &&& self.lo(0) <= x < self.hi(0)
        &&& self.lo(1) <= y < self.hi(1)
        &&& self.lo(2) <= z < self.hi(2)
    }

    /// The whole window.
    pub fn full() -> (r: TileRegion)
        ensures
            forall|a: int| 0 <= a < 3 ==> #[trigger] r.lo(a) == 0 && r.hi(a) == TILE_DIM_COUNT as int,
    {
        TileRegion { lo_x: 0, lo_y: 0, lo_z: 0, hi_x: TILE_DIM_COUNT, hi_y: TILE_DIM_COUNT, hi_z: TILE_DIM_COUNT }
    }
}

impl ClipBox {
    pub open spec fn min(self, axis: int) -> int {
        if axis == 0 {
            self.min_x as int
        } else if axis == 1 {
            self.min_y as int
        } else {
            self.min_z as int
        }
    }

    pub open spec fn max(self, axis: int) -> int {
        if axis == 0 {
            self.max_x as int
        } else if axis == 1 {
            self.max_y as int
        } else {
            self.max_z as int
        }
    }
}

/// The slab newly exposed when the window scrolls by `r` tiles along one
/// axis: the last `r` tiles when moving forward, the first `-r` when moving back.
pub open spec fn slab_lo(r: int) -> int {
    if r > 0 {
        TILE_DIM_COUNT as int - r
    } else {
        0
    }
}

pub open spec fn slab_hi(r: int) -> int {
    if r < 0 {
        -r
    } else {
        TILE_DIM_COUNT as int
    }
}

/// The slab along `axis` for a scroll of `r` tiles; the whole window on the
/// other axes.
pub open spec fn slab(axis: int, r: int) -> TileRegion {
    let n = TILE_DIM_COUNT as usize;
    let lo = slab_lo(r) as usize;
    let hi = slab_hi(r) as usize;
    if axis == 0 {
        TileRegion { lo_x: lo, lo_y: 0, lo_z: 0, hi_x: hi, hi_y: n, hi_z: n }
    } else if axis == 1 {
        TileRegion { lo_x: 0, lo_y: lo, lo_z: 0, hi_x: n, hi_y: hi, hi_z: n }
    } else {
        TileRegion { lo_x: 0, lo_y: 0, lo_z: lo, hi_x: n, hi_y: n, hi_z: hi }
    }
}

/// One slab for each axis with a non-zero redraw, in axis order.
pub open spec fn redraw_regions_spec(redraw: IVec3) -> Seq<TileRegion> {
    let sx = if redraw.x != 0 { seq![slab(0, redraw.x as int)] } else { Seq::empty() };
    let sy = if redraw.y != 0 { seq![slab(1, redraw.y as int)] } else { Seq::empty() };
    let sz = if redraw.z != 0 { seq![slab(2, redraw.z as int)] } else { Seq::empty() };
    sx + sy + sz
}

pub open spec fn redraw_bounded(redraw: IVec3) -> bool {
    forall|a: int| 0 <= a < 3 ==> abs(#[trigger] redraw.at(a)) <= TILE_DIM_COUNT as int
}

fn make_slab(axis: usize, r: i64) -> (s: TileRegion)
    requires
        axis < 3,
        abs(r as int) <= TILE_DIM_COUNT as int,
    ensures
        s == slab(axis as int, r as int),
        s.within_window(),
{
    let n = TILE_DIM_COUNT;
    let lo: usize = if r > 0 { n - r as usize } else { 0 };
    let hi: usize = if r < 0 { (-r) as usize } else { n };
    if axis == 0 {
        TileRegion { lo_x: lo, lo_y: 0, lo_z: 0, hi_x: hi, hi_y: n, hi_z: n }
    } else if axis == 1 {
        TileRegion { lo_x: 0, lo_y: lo, lo_z: 0, hi_x: n, hi_y: hi, hi_z: n }
    } else {
        TileRegion { lo_x: 0, lo_y: 0, lo_z: lo, hi_x: n, hi_y: n, hi_z: hi }
    }
}

/// The window-local slabs that a redraw exposes, one per non-zero axis.
pub fn redraw_regions(redraw: &IVec3) -> (r: Vec<TileRegion>)
    requires
        redraw_bounded(*redraw),
    ensures
        r@ == redraw_regions_spec(*redraw),
        forall|i: int| 0 <= i < r@.len() ==> (#[trigger] r@[i]).within_window(),
{
    assert(abs(redraw.at(0)) <= 16 && abs(redraw.at(1)) <= 16 && abs(redraw.at(2)) <= 16);
    let mut r: Vec<TileRegion> = Vec::new();
    if redraw.x != 0 {
        r.push(make_slab(0, redraw.x));
    }
    if redraw.y != 0 {
        r.push(make_slab(1, redraw.y));
    }
    if redraw.z != 0 {
        r.push(make_slab(2, redraw.z));
    }
    assert(r@ =~= redraw_regions_spec(*redraw));
    r
}

/// World coordinate of the boundary `k` tiles past the window corner `o`.
pub open spec fn tile_boundary(o: int, k: int, tile_size: int) -> int {
    (o + k) * tile_size
}

/// A window-local region as a closed world-space box.
pub open spec fn clip_box_spec(origin: IVec3, tile_size: int, g: TileRegion) -> ClipBox {
    ClipBox {
        min_x: tile_boundary(origin.x as int, g.lo_x as int, tile_size) as i128,
        min_y: tile_boundary(origin.y as int, g.lo_y as int, tile_size) as i128,
        min_z: tile_boundary(origin.z as int, g.lo_z as int, tile_size) as i128,
        max_x: tile_boundary(origin.x as int, g.hi_x as int, tile_size) as i128,
        max_y: tile_boundary(origin.y as int, g.hi_y as int, tile_size) as i128,
        max_z: tile_boundary(origin.z as int, g.hi_z as int, tile_size) as i128,
    }
}

pub proof fn lemma_boundary_fits(o: int, k: int, tile_size: int)
    requires
        i64::MIN <= o <= i64::MAX,
        0 <= k <= TILE_DIM_COUNT as int,
        1 <= tile_size <= i64::MAX,
    ensures
        i128::MIN < tile_boundary(o, k, tile_size) <= i128::MAX,
{
    let a = o + k;
    assert(-0x8000_0000_0000_0000 <= a <= 0x8000_0000_0000_0010);
    assert(-0x8000_0000_0000_0010 * tile_size <= a * tile_size <= 0x8000_0000_0000_0010 * tile_size)
        by (nonlinear_arith)
        requires
            -0x8000_0000_0000_0000 <= a <= 0x8000_0000_0000_0010,
            tile_size >= 1,
    ;
    assert(0x8000_0000_0000_0010 * tile_size <= 0x8000_0000_0000_0010 * 0x7fff_ffff_ffff_ffff)
        by (nonlinear_arith)
        requires
            tile_size <= 0x7fff_ffff_ffff_ffff,
    ;
}

fn boundary(o: i64, k: usize, tile_size: i64) -> (r: i128)
    requires
        k <= TILE_DIM_COUNT,
        tile_size >= 1,
    ensures
        r as int == tile_boundary(o as int, k as int, tile_size as int),
{
    proof {
        lemma_boundary_fits(o as int, k as int, tile_size as int);
    }
    (o as i128 + k as i128) * (tile_size as i128)
}

/// The world-space clip box of each region, for a window with corner
/// `origin` and tiles of side `tile_size`.
pub fn clip_boxes(origin: &IVec3, tile_size: i64, regions: &Vec<TileRegion>) -> (r: Vec<ClipBox>)
    requires
        tile_size >= 1,
        forall|i: int| 0 <= i < regions@.len() ==> (#[trigger] regions@[i]).within_window(),
    ensures
        r@ == regions@.map_values(|g: TileRegion| clip_box_spec(*origin, tile_size as int, g)),
{
    let mut r: Vec<ClipBox> = Vec::new();
    let mut i: usize = 0;
    while i < regions.len()
        invariant
            i <= regions@.len(),
            tile_size >= 1,
            forall|j: int| 0 <= j < regions@.len() ==> (#[trigger] regions@[j]).within_window(),
            r@ == regions@.take(i as int).map_values(|g: TileRegion| clip_box_spec(*origin, tile_size as int, g)),
        decreases regions@.len() - i,
    {
        let g = regions[i];
        assert(g.within_window());
        assert(g.lo(0) <= g.hi(0) <= 16 && g.lo(1) <= g.hi(1) <= 16 && g.lo(2) <= g.hi(2) <= 16);
        let b = ClipBox {
            min_x: boundary(origin.x, g.lo_x, tile_size),
            min_y: boundary(origin.y, g.lo_y, tile_size),
            min_z: boundary(origin.z, g.lo_z, tile_size),
            max_x: boundary(origin.x, g.hi_x, tile_size),
            max_y: boundary(origin.y, g.hi_y, tile_size),
            max_z: boundary(origin.z, g.hi_z, tile_size),
        };
        r.push(b);
        assert(regions@.take(i as int + 1) =~= regions@.take(i as int).push(g));
        i = i + 1;
    }
    assert(regions@.take(regions@.len() as int) =~= regions@);
    r
}

} // verus!
