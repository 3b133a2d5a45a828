//! Coarse binning: each triangle's id goes into the list of every tile of the
//! redraw region that its bounding box meets. A full tile list spills into
//! overflow ("virtual") tiles at the same place, up to a global budget; ids
//! beyond that budget are dropped.

use vstd::prelude::*;
use crate::geom::{IVec3, floor_div, lemma_floor_div_le};
use crate::region::{TileRegion, tile_boundary};
use crate::settings::{TILE_COUNT, TILE_DIM_COUNT};

verus! {

/// A world-space triangle, in fixed-point units.
#[derive(Clone, Copy, Debug, PartialEq, Eq, Structural)]
pub struct Triangle {
    pub a: IVec3,
    pub b: IVec3,
    pub c: IVec3,
}

/// Where binning happens: the window corner (tile space), the tile side, and
/// the window-local region whose tiles are filled.
#[derive(Clone, Copy, Debug, PartialEq, Eq, Structural)]
pub struct BinHeader {
    pub origin: IVec3,
    pub tile_size: i64,
    pub region: TileRegion,
}

/// Capacities of one binning pass: ids per tile list, and overflow tiles.
#[derive(Clone, Copy, Debug, PartialEq, Eq, Structural)]
pub struct BinLimits {
    pub ids_per_tile: usize,
    pub virtual_tiles: usize,
}

impl BinHeader {
    pub open spec fn valid(self) -> bool {
        &&& self.tile_size >= 1
        &&& self.region.within_window()
    }
}

pub open spec fn min3(a: int, b: int, c: int) -> int {
    if a <= b && a <= c {
        a
    } else if b <= c {
        b
    } else {
        c
    }
}

pub open spec fn max3(a: int, b: int, c: int) -> int {
    if a >= b && a >= c {
        a
    } else if b >= c {
        b
    } else {
        c
    }
}

/// The triangle's bounding box along `axis`: `[tri_min, tri_max]`.
pub open spec fn tri_min(t: Triangle, axis: int) -> int {
    min3(t.a.at(axis), t.b.at(axis), t.c.at(axis))
}

pub open spec fn tri_max(t: Triangle, axis: int) -> int {
    max3(t.a.at(axis), t.b.at(axis), t.c.at(axis))
}

/// The closed interval `[mn, mx]` meets the half-open extent of tile `t`
/// counted from the window corner `o`.
pub open spec fn axis_overlap(mn: int, mx: int, o: int, t: int, tile_size: int) -> bool {
    mn < tile_boundary(o, t + 1, tile_size) && tile_boundary(o, t, tile_size) <= mx
}

/// The triangle's bounding box meets the world extent of window-local tile
/// `(x, y, z)`, which lies in the header's region.
pub open spec fn overlaps(tri: Triangle, h: BinHeader, x: int, y: int, z: int) -> bool {
    &&& h.region.contains(x, y, z)
    &&& axis_overlap(tri_min(tri, 0), tri_max(tri, 0), h.origin.x as int, x, h.tile_size as int)
    &&& axis_overlap(tri_min(tri, 1), tri_max(tri, 1), h.origin.y as int, y, h.tile_size as int)
    &&& axis_overlap(tri_min(tri, 2), tri_max(tri, 2), h.origin.z as int, z, h.tile_size as int)
}

/// Position of window-local tile `(x, y, z)` in per-tile tables.
pub open spec fn tile_index(x: int, y: int, z: int) -> int {
    (x * (TILE_DIM_COUNT as int) + y) * (TILE_DIM_COUNT as int) + z
}

pub open spec fn in_window(x: int, y: int, z: int) -> bool {
    0 <= x < TILE_DIM_COUNT as int && 0 <= y < TILE_DIM_COUNT as int && 0 <= z < TILE_DIM_COUNT as int
}

/// Ids, in order, of the first `n` triangles that meet tile `(x, y, z)`.
pub open spec fn candidates(tris: Seq<Triangle>, h: BinHeader, n: int, x: int, y: int, z: int) -> Seq<usize>
    decreases n,
{
    if n <= 0 {
        Seq::empty()
    } else {
        candidates(tris, h, n - 1, x, y, z) + if overlaps(tris[n - 1], h, x, y, z) {
            seq![(n - 1) as usize]
        } else {
            Seq::empty()
        }
    }
}

/// The ids of a tile's list followed by those of its overflow tiles.
pub open spec fn flatten(chunks: Seq<Seq<usize>>) -> Seq<usize>
    decreases chunks.len(),
{
    if chunks.len() == 0 {
        Seq::empty()
    } else {
        flatten(chunks.drop_last()) + chunks.last()
    }
}

/// A tile's lists: the tile's own, then its overflow tiles, each holding at
/// most `cap` ids; every list but the last is full, and overflow tiles are
/// never empty.
pub open spec fn chain_ok(chunks: Seq<Seq<usize>>, cap: int) -> bool {
    &&& chunks.len() >= 1
    &&& forall|k: int| 0 <= k < chunks.len() ==> (#[trigger] chunks[k]).len() <= cap
    &&& forall|k: int| 0 <= k < chunks.len() - 1 ==> (#[trigger] chunks[k]).len() == cap
    &&& forall|k: int| 1 <= k < chunks.len() ==> (#[trigger] chunks[k]).len() >= 1
}

/// Overflow tiles among the first `n` tiles.
#[verifier::opaque]
pub open spec fn virtual_upto(cs: Seq<Seq<Seq<usize>>>, n: int) -> int
    decreases n,
{
    if n <= 0 {
        0
    } else {
        virtual_upto(cs, n - 1) + cs[n - 1].len() - 1
    }
}

/// The result of binning: for each tile of the window, its own id list and
/// its overflow tiles' lists.
pub struct TileBins {
    chains: Vec<Vec<Vec<usize>>>,
    virtual_used: usize,
    limits: BinLimits,
}

/// One occupied tile, or overflow tile, handed to the fine stage.
#[derive(Clone, Debug)]
pub struct BinnedTile {
    pub tile: usize,
    pub ids: Vec<usize>,
}

impl TileBins {
    /// The lists of tile `t`, own list first.
    pub closed spec fn chunks(&self, t: int) -> Seq<Seq<usize>> {
        self.chains@[t]@.map_values(|v: Vec<usize>| v@)
    }

    pub closed spec fn all_chunks(&self) -> Seq<Seq<Seq<usize>>> {
        Seq::new(self.chains@.len(), |t: int| self.chunks(t))
    }

    pub closed spec fn tables(&self) -> int {
        self.chains@.len() as int
    }

    /// Overflow tiles allocated.
    pub closed spec fn virtual_count(&self) -> int {
        self.virtual_used as int
    }

    pub closed spec fn limits_view(&self) -> BinLimits {
        self.limits
    }

    /// Every id stored for tile `t`, own list first.
    pub open spec fn ids_at(&self, t: int) -> Seq<usize> {
        flatten(self.chunks(t))
    }

    pub open spec fn wf(&self) -> bool {
        &&& self.tables() == TILE_COUNT as int
        &&& self.limits_view().ids_per_tile >= 1
        &&& forall|t: int|
            0 <= t < TILE_COUNT as int ==> chain_ok(#[trigger] self.chunks(t), self.limits_view().ids_per_tile as int)
        &&& self.virtual_count() == virtual_upto(self.all_chunks(), TILE_COUNT as int)
        &&& self.virtual_count() <= self.limits_view().virtual_tiles
    }

    /// Tile `t`'s ids are, in order, the first of `cand`; ids were left out
    /// only when the tile's last list was full and the overflow budget spent.
    pub open spec fn tile_ok(&self, cand: Seq<usize>, t: int) -> bool {
        let ids = self.ids_at(t);
        &&& ids.len() <= cand.len()
        &&& ids == cand.take(ids.len() as int)
        &&& ids.len() < cand.len() ==> {
            &&& self.virtual_count() == self.limits_view().virtual_tiles
            &&& self.chunks(t).last().len() == self.limits_view().ids_per_tile
        }
    }
}

proof fn lemma_flatten_push_last(c: Seq<Seq<usize>>, id: usize)
    requires
        c.len() >= 1,
    ensures
        flatten(c.update(c.len() - 1, c.last().push(id))) == flatten(c).push(id),
{
    let d = c.update(c.len() - 1, c.last().push(id));
    assert(d.drop_last() =~= c.drop_last());
    assert(flatten(d) =~= flatten(c).push(id));
}

proof fn lemma_flatten_push_chunk(c: Seq<Seq<usize>>, id: usize)
    ensures
        flatten(c.push(seq![id])) == flatten(c).push(id),
{
    assert(c.push(seq![id]).drop_last() =~= c);
    assert(flatten(c.push(seq![id])) =~= flatten(c).push(id));
}

proof fn lemma_virtual_step(cs: Seq<Seq<Seq<usize>>>, n: int)
    requires
        0 <= n,
    ensures
        virtual_upto(cs, n + 1) == virtual_upto(cs, n) + cs[n].len() - 1,
        virtual_upto(cs, 0) == 0,
{
    reveal(virtual_upto);
}

/// Changing one tile's lists changes the overflow count by the change in
/// its overflow tiles.
proof fn lemma_virtual_update(cs: Seq<Seq<Seq<usize>>>, ds: Seq<Seq<Seq<usize>>>, t: int, n: int)
    requires
        cs.len() == ds.len(),
        0 <= t < cs.len(),
        0 <= n <= cs.len(),
        forall|k: int| 0 <= k < cs.len() && k != t ==> #[trigger] ds[k] == cs[k],
    ensures
        virtual_upto(ds, n) == virtual_upto(cs, n) + if n > t { ds[t].len() - cs[t].len() } else { 0 },
    decreases n,
{
    lemma_virtual_step(cs, 0);
    lemma_virtual_step(ds, 0);
    if n > 0 {
        lemma_virtual_update(cs, ds, t, n - 1);
        lemma_virtual_step(cs, n - 1);
        lemma_virtual_step(ds, n - 1);
    }
}

proof fn lemma_virtual_single(cs: Seq<Seq<Seq<usize>>>, n: int)
    requires
        0 <= n <= cs.len(),
        forall|k: int| 0 <= k < cs.len() ==> (#[trigger] cs[k]).len() == 1,
    ensures
        virtual_upto(cs, n) == 0,
    decreases n,
{
    lemma_virtual_step(cs, 0);
    if n > 0 {
        lemma_virtual_single(cs, n - 1);
        lemma_virtual_step(cs, n - 1);
    }
}

impl TileBins {
    /// Empty lists for every tile of the window.
    pub fn new(limits: BinLimits) -> (r: TileBins)
        requires
            limits.ids_per_tile >= 1,
        ensures
            r.wf(),
            r.limits_view() == limits,
            r.virtual_count() == 0,
            forall|t: int| 0 <= t < TILE_COUNT as int ==> #[trigger] r.chunks(t) == seq![Seq::<usize>::empty()],
    {
        let mut chains: Vec<Vec<Vec<usize>>> = Vec::new();
        let mut t: usize = 0;
        while t < TILE_COUNT
            invariant
                t <= TILE_COUNT,
                chains@.len() == t,
                forall|k: int| 0 <= k < t ==> (#[trigger] chains@[k])@.len() == 1 && chains@[k]@[0]@.len() == 0,
            decreases TILE_COUNT - t,
        {
            let mut chain: Vec<Vec<usize>> = Vec::new();
            chain.push(Vec::new());
            chains.push(chain);
            t = t + 1;
        }
        let r = TileBins { chains, virtual_used: 0, limits };
        proof {
            assert forall|k: int| 0 <= k < TILE_COUNT as int implies #[trigger] r.chunks(k) == seq![
                Seq::<usize>::empty(),
            ] by {
                assert(chains@[k]@.len() == 1 && chains@[k]@[0]@.len() == 0);
                assert(r.chunks(k)[0] =~= Seq::<usize>::empty());
                assert(r.chunks(k) =~= seq![Seq::<usize>::empty()]);
            }
            lemma_virtual_single(r.all_chunks(), TILE_COUNT as int);
        }
        r
    }

    /// Appends `id` to tile `t`: to its last list if that has room, else to
    /// a new overflow tile if the budget allows, else nowhere.
    fn push_id(&mut self, t: usize, id: usize)
        requires
            old(self).wf(),
            t < TILE_COUNT,
        ensures
            final(self).wf(),
            final(self).limits_view() == old(self).limits_view(),
            forall|k: int| 0 <= k < TILE_COUNT as int && k != t ==> #[trigger] final(self).chunks(k) == old(self).chunks(k),
            ({
                let c = old(self).chunks(t as int);
                let cap = old(self).limits_view().ids_per_tile as int;
                let budget = old(self).limits_view().virtual_tiles as int;
                &&& c.last().len() < cap ==> final(self).chunks(t as int) == c.update(c.len() - 1, c.last().push(id))
                    && final(self).virtual_count() == old(self).virtual_count()
                &&& c.last().len() >= cap && old(self).virtual_count() < budget ==> final(self).chunks(t as int)
                    == c.push(seq![id]) && final(self).virtual_count() == old(self).virtual_count() + 1
                &&& c.last().len() >= cap && old(self).virtual_count() >= budget ==> final(self).chunks(t as int)
                    == c && final(self).virtual_count() == old(self).virtual_count()
            }),
    {
        let ghost before = self.all_chunks();
        assert(chain_ok(self.chunks(t as int), self.limits.ids_per_tile as int));
        let last = self.chains[t].len() - 1;
        if self.chains[t][last].len() < self.limits.ids_per_tile {
            self.chains[t][last].push(id);
            proof {
                let c = before[t as int];
                assert(self.chunks(t as int) =~= c.update(c.len() - 1, c.last().push(id)));
                assert forall|k: int| 0 <= k < TILE_COUNT as int && k != t implies #[trigger] self.chunks(k) == before[k] by {
                    assert(self.chunks(k) =~= before[k]);
                }
                assert(self.all_chunks().len() == before.len());
                assert forall|k: int| 0 <= k < before.len() && k != t implies #[trigger] self.all_chunks()[k] == before[k] by {
                    assert(self.chunks(k) =~= before[k]);
                }
                lemma_virtual_update(before, self.all_chunks(), t as int, TILE_COUNT as int);
            }
        } else if self.virtual_used < self.limits.virtual_tiles {
            let mut fresh: Vec<usize> = Vec::new();
            fresh.push(id);
            self.chains[t].push(fresh);
            self.virtual_used = self.virtual_used + 1;
            proof {
                let c = before[t as int];
                assert(self.chunks(t as int) =~= c.push(seq![id]));
                assert forall|k: int| 0 <= k < TILE_COUNT as int && k != t implies #[trigger] self.chunks(k) == before[k] by {
                    assert(self.chunks(k) =~= before[k]);
                }
                assert forall|k: int| 0 <= k < before.len() && k != t implies #[trigger] self.all_chunks()[k] == before[k] by {
                    assert(self.chunks(k) =~= before[k]);
                }
                lemma_virtual_update(before, self.all_chunks(), t as int, TILE_COUNT as int);
            }
        }
    }
}

proof fn lemma_tile_ok_push(a: TileBins, b: TileBins, cand: Seq<usize>, t: int, id: usize)
    requires
        a.wf(),
        b.wf(),
        0 <= t < TILE_COUNT as int,
        a.limits_view() == b.limits_view(),
        a.tile_ok(cand, t),
        ({
            let c = a.chunks(t);
            let cap = a.limits_view().ids_per_tile as int;
            let budget = a.limits_view().virtual_tiles as int;
            &&& c.last().len() < cap ==> b.chunks(t) == c.update(c.len() - 1, c.last().push(id))
                && b.virtual_count() == a.virtual_count()
            &&& c.last().len() >= cap && a.virtual_count() < budget ==> b.chunks(t) == c.push(seq![id])
                && b.virtual_count() == a.virtual_count() + 1
            &&& c.last().len() >= cap && a.virtual_count() >= budget ==> b.chunks(t) == c && b.virtual_count()
                == a.virtual_count()
        }),
    ensures
        b.tile_ok(cand.push(id), t),
{
    let c = a.chunks(t);
    let cap = a.limits_view().ids_per_tile as int;
    let budget = a.limits_view().virtual_tiles as int;
    assert(chain_ok(c, cap));
    let ids = a.ids_at(t);
    if c.last().len() < cap {
        lemma_flatten_push_last(c, id);
        assert(ids =~= cand);
        assert(cand.push(id).take(cand.len() + 1int) =~= cand.push(id));
    } else if a.virtual_count() < budget {
        lemma_flatten_push_chunk(c, id);
        assert(ids =~= cand);
        assert(cand.push(id).take(cand.len() + 1int) =~= cand.push(id));
    } else {
        assert(cand.push(id).take(ids.len() as int) =~= cand.take(ids.len() as int));
    }
}

proof fn lemma_tile_ok_frame(a: TileBins, b: TileBins, cand: Seq<usize>, t: int)
    requires
        a.limits_view() == b.limits_view(),
        a.tile_ok(cand, t),
        b.chunks(t) == a.chunks(t),
        b.virtual_count() == a.virtual_count() || a.virtual_count() < a.limits_view().virtual_tiles,
    ensures
        b.tile_ok(cand, t),
{
}

proof fn lemma_candidates_step(tris: Seq<Triangle>, h: BinHeader, i: int, x: int, y: int, z: int)
    requires
        0 <= i,
    ensures
        candidates(tris, h, i + 1, x, y, z) == if overlaps(tris[i], h, x, y, z) {
            candidates(tris, h, i, x, y, z).push(i as usize)
        } else {
            candidates(tris, h, i, x, y, z)
        },
{
    if overlaps(tris[i], h, x, y, z) {
        assert(candidates(tris, h, i + 1, x, y, z) =~= candidates(tris, h, i, x, y, z).push(i as usize));
    } else {
        assert(candidates(tris, h, i + 1, x, y, z) =~= candidates(tris, h, i, x, y, z));
    }
}

proof fn lemma_tile_index(x: int, y: int, z: int, x2: int, y2: int, z2: int)
    requires
        in_window(x, y, z),
        in_window(x2, y2, z2),
    ensures
        0 <= tile_index(x, y, z) < TILE_COUNT as int,
        tile_index(x, y, z) == tile_index(x2, y2, z2) ==> x == x2 && y == y2 && z == z2,
{
}

/// The window-local tiles `lo <= t < hi` along one axis that the interval
/// `[mn, mx]` meets within the region's `[rlo, rhi)`.
fn axis_range(mn: i64, mx: i64, o: i64, tile_size: i64, rlo: usize, rhi: usize) -> (r: (usize, usize))
    requires
        tile_size >= 1,
        rlo <= rhi <= TILE_DIM_COUNT,
    ensures
        r.0 <= r.1 <= TILE_DIM_COUNT,
        forall|t: int|
            0 <= t < TILE_DIM_COUNT as int ==> ((r.0 <= t && t < r.1) <==> (rlo <= t && t < rhi && #[trigger] axis_overlap(
                mn as int,
                mx as int,
                o as int,
                t,
                tile_size as int,
            ))),
{
    let fmin = floor_div(mn, tile_size) as i128 - o as i128;
    let fmax = floor_div(mx, tile_size) as i128 - o as i128;
    let mut lo: i128 = if fmin > rlo as i128 { fmin } else { rlo as i128 };
    let mut hi: i128 = if fmax + 1 < rhi as i128 { fmax + 1 } else { rhi as i128 };
    if lo > TILE_DIM_COUNT as i128 {
        lo = TILE_DIM_COUNT as i128;
    }
    if hi < lo {
        hi = lo;
    }
    proof {
        assert forall|t: int| 0 <= t < TILE_DIM_COUNT as int implies ((lo <= t && t < hi) <==> (rlo <= t && t < rhi
            && #[trigger] axis_overlap(mn as int, mx as int, o as int, t, tile_size as int))) by {
            lemma_floor_div_le(mn as int, tile_size as int, o + t + 1);
            lemma_floor_div_le(mx as int, tile_size as int, o + t);
        }
    }
    (lo as usize, hi as usize)
}

/// Tile `(x, y, z)` has been visited by a sweep of the box `lo <= _ < hi`
/// that stands at `(cx, cy, cz)`, in x-major order.
pub open spec fn visited(
    lo: (int, int, int),
    hi: (int, int, int),
    c: (int, int, int),
    x: int,
    y: int,
    z: int,
) -> bool {
    &&& lo.0 <= x < hi.0 && lo.1 <= y < hi.1 && lo.2 <= z < hi.2
    &&& (x < c.0 || (x == c.0 && (y < c.1 || (y == c.1 && z < c.2))))
}

/// During the sweep for triangle `i`: visited tiles account for the first
/// `i + 1` triangles, the others for the first `i`.
pub open spec fn progress(
    bins: TileBins,
    tris: Seq<Triangle>,
    h: BinHeader,
    i: int,
    lo: (int, int, int),
    hi: (int, int, int),
    c: (int, int, int),
    x: int,
    y: int,
    z: int,
) -> bool {
    let n = if visited(lo, hi, c, x, y, z) { i + 1 } else { i };
    bins.tile_ok(candidates(tris, h, n, x, y, z), tile_index(x, y, z))
}

fn tile_at(x: usize, y: usize, z: usize) -> (t: usize)
    requires
        in_window(x as int, y as int, z as int),
    ensures
        t as int == tile_index(x as int, y as int, z as int),
        t < TILE_COUNT,
{
    (x * TILE_DIM_COUNT + y) * TILE_DIM_COUNT + z
}

fn min3_exec(a: i64, b: i64, c: i64) -> (r: i64)
    ensures
        r as int == min3(a as int, b as int, c as int),
{
    if a <= b && a <= c {
        a
    } else if b <= c {
        b
    } else {
        c
    }
}

fn max3_exec(a: i64, b: i64, c: i64) -> (r: i64)
    ensures
        r as int == max3(a as int, b as int, c as int),
{
    if a >= b && a >= c {
        a
    } else if b >= c {
        b
    } else {
        c
    }
}

impl TileBins {
    /// Sweeps the tiles of one box row `(x, y, lz..hz)`, appending `id`.
    fn bin_row(
        &mut self,
        tris: Ghost<Seq<Triangle>>,
        h: Ghost<BinHeader>,
        id: usize,
        lo: (usize, usize, usize),
        hi: (usize, usize, usize),
        x: usize,
        y: usize,
    )
        requires
            old(self).wf(),
            hi.0 <= TILE_DIM_COUNT && hi.1 <= TILE_DIM_COUNT && hi.2 <= TILE_DIM_COUNT,
            lo.0 <= x < hi.0,
            lo.1 <= y < hi.1,
            lo.2 <= hi.2,
            id < tris@.len(),
            forall|a: int, b: int, c: int|
                in_window(a, b, c) ==> (overlaps(tris@[id as int], h@, a, b, c) <==> (lo.0 <= a < hi.0 && lo.1 <= b
                    < hi.1 && lo.2 <= c < hi.2)),
            forall|a: int, b: int, c: int|
                in_window(a, b, c) ==> #[trigger] progress(
                    *old(self),
                    tris@,
                    h@,
                    id as int,
                    (lo.0 as int, lo.1 as int, lo.2 as int),
                    (hi.0 as int, hi.1 as int, hi.2 as int),
                    (x as int, y as int, lo.2 as int),
                    a,
                    b,
                    c,
                ),
        ensures
            final(self).wf(),
            final(self).limits_view() == old(self).limits_view(),
            forall|a: int, b: int, c: int|
                in_window(a, b, c) ==> #[trigger] progress(
                    *final(self),
                    tris@,
                    h@,
                    id as int,
                    (lo.0 as int, lo.1 as int, lo.2 as int),
                    (hi.0 as int, hi.1 as int, hi.2 as int),
                    (x as int, y as int, hi.2 as int),
                    a,
                    b,
                    c,
                ),
    {
        let ghost l = (lo.0 as int, lo.1 as int, lo.2 as int);
        let ghost u = (hi.0 as int, hi.1 as int, hi.2 as int);
        let mut z: usize = lo.2;
        while z < hi.2
            invariant
                self.wf(),
                self.limits_view() == old(self).limits_view(),
                l == (lo.0 as int, lo.1 as int, lo.2 as int),
                u == (hi.0 as int, hi.1 as int, hi.2 as int),
                lo.2 <= z <= hi.2,
                hi.0 <= TILE_DIM_COUNT && hi.1 <= TILE_DIM_COUNT && hi.2 <= TILE_DIM_COUNT,
                lo.0 <= x < hi.0,
                lo.1 <= y < hi.1,
                id < tris@.len(),
                forall|a: int, b: int, c: int|
                    in_window(a, b, c) ==> (overlaps(tris@[id as int], h@, a, b, c) <==> (lo.0 <= a < hi.0 && lo.1
                        <= b < hi.1 && lo.2 <= c < hi.2)),
                forall|a: int, b: int, c: int|
                    in_window(a, b, c) ==> #[trigger] progress(
                        *self,
                        tris@,
                        h@,
                        id as int,
                        l,
                        u,
                        (x as int, y as int, z as int),
                        a,
                        b,
                        c,
                    ),
            decreases hi.2 - z,
        {
            let ghost before = *self;
            let t = tile_at(x, y, z);
            self.push_id(t, id);
            proof {
                let next = (x as int, y as int, z + 1);
                let cur = (x as int, y as int, z as int);
                assert forall|a: int, b: int, c: int| in_window(a, b, c) implies #[trigger] progress(
                    *self,
                    tris@,
                    h@,
                    id as int,
                    l,
                    u,
                    next,
                    a,
                    b,
                    c,
                ) by {
                    assert(progress(before, tris@, h@, id as int, l, u, cur, a, b, c));
                    lemma_tile_index(a, b, c, x as int, y as int, z as int);
                    lemma_candidates_step(tris@, h@, id as int, a, b, c);
                    if a == x && b == y && c == z {
                        assert(overlaps(tris@[id as int], h@, a, b, c));
                        assert(!visited(l, u, cur, a, b, c));
                        assert(visited(l, u, next, a, b, c));
                        lemma_tile_ok_push(
                            before,
                            *self,
                            candidates(tris@, h@, id as int, a, b, c),
                            t as int,
                            id,
                        );
                    } else {
                        assert(visited(l, u, cur, a, b, c) == visited(l, u, next, a, b, c));
                        let n = if visited(l, u, cur, a, b, c) { id + 1 } else { id as int };
                        assert(self.chunks(tile_index(a, b, c)) == before.chunks(tile_index(a, b, c)));
                        assert(self.virtual_count() == before.virtual_count() || before.virtual_count()
                            < before.limits_view().virtual_tiles);
                        lemma_tile_ok_frame(before, *self, candidates(tris@, h@, n, a, b, c), tile_index(a, b, c));
                    }
                }
            }
            z = z + 1;
        }
    }
}

proof fn lemma_progress_same_visited(
    bins: TileBins,
    tris: Seq<Triangle>,
    h: BinHeader,
    i: int,
    lo: (int, int, int),
    hi: (int, int, int),
    c1: (int, int, int),
    c2: (int, int, int),
)
    requires
        forall|a: int, b: int, c: int|
            in_window(a, b, c) ==> #[trigger] progress(bins, tris, h, i, lo, hi, c1, a, b, c),
        forall|a: int, b: int, c: int| visited(lo, hi, c1, a, b, c) == visited(lo, hi, c2, a, b, c),
    ensures
        forall|a: int, b: int, c: int|
            in_window(a, b, c) ==> #[trigger] progress(bins, tris, h, i, lo, hi, c2, a, b, c),
{
    assert forall|a: int, b: int, c: int| in_window(a, b, c) implies #[trigger] progress(
        bins,
        tris,
        h,
        i,
        lo,
        hi,
        c2,
        a,
        b,
        c,
    ) by {
        assert(progress(bins, tris, h, i, lo, hi, c1, a, b, c));
        assert(visited(lo, hi, c1, a, b, c) == visited(lo, hi, c2, a, b, c));
    }
}

impl TileBins {
    /// Appends triangle `id` to every tile of the region that its bounding
    /// box meets.
    fn bin_triangle(&mut self, tris: &Vec<Triangle>, h: &BinHeader, id: usize)
        requires
            old(self).wf(),
            h.valid(),
            id < tris@.len(),
            forall|a: int, b: int, c: int|
                in_window(a, b, c) ==> old(self).tile_ok(
                    #[trigger] candidates(tris@, *h, id as int, a, b, c),
                    tile_index(a, b, c),
                ),
        ensures
            final(self).wf(),
            final(self).limits_view() == old(self).limits_view(),
            forall|a: int, b: int, c: int|
                in_window(a, b, c) ==> final(self).tile_ok(
                    #[trigger] candidates(tris@, *h, id + 1, a, b, c),
                    tile_index(a, b, c),
                ),
    {
        let tri = tris[id];
        let g = h.region;
        assert(g.lo(0) <= g.hi(0) <= 16 && g.lo(1) <= g.hi(1) <= 16 && g.lo(2) <= g.hi(2) <= 16);
        let mn_x = min3_exec(tri.a.x, tri.b.x, tri.c.x);
        let mx_x = max3_exec(tri.a.x, tri.b.x, tri.c.x);
        let mn_y = min3_exec(tri.a.y, tri.b.y, tri.c.y);
        let mx_y = max3_exec(tri.a.y, tri.b.y, tri.c.y);
        let mn_z = min3_exec(tri.a.z, tri.b.z, tri.c.z);
        let mx_z = max3_exec(tri.a.z, tri.b.z, tri.c.z);
        let rx = axis_range(
            mn_x,
            mx_x,
            h.origin.x,
            h.tile_size,
            g.lo_x,
            g.hi_x,
        );
        let ry = axis_range(
            mn_y,
            mx_y,
            h.origin.y,
            h.tile_size,
            g.lo_y,
            g.hi_y,
        );
        let rz = axis_range(
            mn_z,
            mx_z,
            h.origin.z,
            h.tile_size,
            g.lo_z,
            g.hi_z,
        );
        let lo = (rx.0, ry.0, rz.0);
        let hi = (rx.1, ry.1, rz.1);
        let ghost l = (lo.0 as int, lo.1 as int, lo.2 as int);
        let ghost u = (hi.0 as int, hi.1 as int, hi.2 as int);
        proof {
            assert forall|a: int, b: int, c: int| in_window(a, b, c) implies (overlaps(tris@[id as int], *h, a, b, c)
                <==> (lo.0 <= a < hi.0 && lo.1 <= b < hi.1 && lo.2 <= c < hi.2)) by {
                assert(tri_min(tri, 0) == mn_x && tri_max(tri, 0) == mx_x);
                assert(tri_min(tri, 1) == mn_y && tri_max(tri, 1) == mx_y);
                assert(tri_min(tri, 2) == mn_z && tri_max(tri, 2) == mx_z);
                let ghost ov_x = axis_overlap(mn_x as int, mx_x as int, h.origin.x as int, a, h.tile_size as int);
                assert((rx.0 <= a && a < rx.1) ==> (g.lo_x <= a && a < g.hi_x && ov_x));
                assert((g.lo_x <= a && a < g.hi_x && ov_x) ==> (rx.0 <= a && a < rx.1));
                let ghost ov_y = axis_overlap(mn_y as int, mx_y as int, h.origin.y as int, b, h.tile_size as int);
                assert((ry.0 <= b && b < ry.1) ==> (g.lo_y <= b && b < g.hi_y && ov_y));
                assert((g.lo_y <= b && b < g.hi_y && ov_y) ==> (ry.0 <= b && b < ry.1));
                let ghost ov_z = axis_overlap(mn_z as int, mx_z as int, h.origin.z as int, c, h.tile_size as int);
                assert((rz.0 <= c && c < rz.1) ==> (g.lo_z <= c && c < g.hi_z && ov_z));
                assert((g.lo_z <= c && c < g.hi_z && ov_z) ==> (rz.0 <= c && c < rz.1));
            }
            assert forall|a: int, b: int, c: int| in_window(a, b, c) implies #[trigger] progress(
                *self,
                tris@,
                *h,
                id as int,
                l,
                u,
                l,
                a,
                b,
                c,
            ) by {
                assert(self.tile_ok(candidates(tris@, *h, id as int, a, b, c), tile_index(a, b, c)));
            }
        }
        let mut x: usize = lo.0;
        while x < hi.0
            invariant
                self.wf(),
                self.limits_view() == old(self).limits_view(),
                l == (lo.0 as int, lo.1 as int, lo.2 as int),
                u == (hi.0 as int, hi.1 as int, hi.2 as int),
                lo.0 <= x <= hi.0,
                lo.0 <= hi.0 <= TILE_DIM_COUNT && lo.1 <= hi.1 <= TILE_DIM_COUNT && lo.2 <= hi.2 <= TILE_DIM_COUNT,
                id < tris@.len(),
                forall|a: int, b: int, c: int|
                    in_window(a, b, c) ==> (overlaps(tris@[id as int], *h, a, b, c) <==> (lo.0 <= a < hi.0 && lo.1
                        <= b < hi.1 && lo.2 <= c < hi.2)),
                forall|a: int, b: int, c: int|
                    in_window(a, b, c) ==> #[trigger] progress(
                        *self,
                        tris@,
                        *h,
                        id as int,
                        l,
                        u,
                        (x as int, lo.1 as int, lo.2 as int),
                        a,
                        b,
                        c,
                    ),
            decreases hi.0 - x,
        {
            let mut y: usize = lo.1;
            while y < hi.1
                invariant
                    self.wf(),
                    self.limits_view() == old(self).limits_view(),
                    l == (lo.0 as int, lo.1 as int, lo.2 as int),
                    u == (hi.0 as int, hi.1 as int, hi.2 as int),
                    lo.0 <= x < hi.0,
                    lo.1 <= y <= hi.1,
                    lo.0 <= hi.0 <= TILE_DIM_COUNT && lo.1 <= hi.1 <= TILE_DIM_COUNT && lo.2 <= hi.2
                        <= TILE_DIM_COUNT,
                    id < tris@.len(),
                    forall|a: int, b: int, c: int|
                        in_window(a, b, c) ==> (overlaps(tris@[id as int], *h, a, b, c) <==> (lo.0 <= a < hi.0
                            && lo.1 <= b < hi.1 && lo.2 <= c < hi.2)),
                    forall|a: int, b: int, c: int|
                        in_window(a, b, c) ==> #[trigger] progress(
                            *self,
                            tris@,
                            *h,
                            id as int,
                            l,
                            u,
                            (x as int, y as int, lo.2 as int),
                            a,
                            b,
                            c,
                        ),
                decreases hi.1 - y,
            {
                self.bin_row(Ghost(tris@), Ghost(*h), id, lo, hi, x, y);
                proof {
                    lemma_progress_same_visited(
                        *self,
                        tris@,
                        *h,
                        id as int,
                        l,
                        u,
                        (x as int, y as int, hi.2 as int),
                        (x as int, y + 1, lo.2 as int),
                    );
                }
                y = y + 1;
            }
            proof {
                lemma_progress_same_visited(
                    *self,
                    tris@,
                    *h,
                    id as int,
                    l,
                    u,
                    (x as int, hi.1 as int, lo.2 as int),
                    (x + 1, lo.1 as int, lo.2 as int),
                );
            }
            x = x + 1;
        }
        proof {
            assert forall|a: int, b: int, c: int| in_window(a, b, c) implies self.tile_ok(
                #[trigger] candidates(tris@, *h, id + 1, a, b, c),
                tile_index(a, b, c),
            ) by {
                assert(progress(*self, tris@, *h, id as int, l, u, (hi.0 as int, lo.1 as int, lo.2 as int), a, b, c));
                lemma_candidates_step(tris@, *h, id as int, a, b, c);
            }
        }
    }
}

/// Every tile of the window holds, in order, a prefix of the ids of the
/// triangles that meet it, cut short only when its last list is full and the
/// overflow budget spent.
pub open spec fn binned(bins: TileBins, tris: Seq<Triangle>, h: BinHeader) -> bool {
    forall|x: int, y: int, z: int|
        in_window(x, y, z) ==> bins.tile_ok(
            #[trigger] candidates(tris, h, tris.len() as int, x, y, z),
            tile_index(x, y, z),
        )
}

/// Bins each triangle, in order, into every tile of the header's region
/// that its bounding box meets.
pub fn bin_triangles(tris: &Vec<Triangle>, h: &BinHeader, limits: BinLimits) -> (r: TileBins)
    requires
        h.valid(),
        limits.ids_per_tile >= 1,
    ensures
        r.wf(),
        r.limits_view() == limits,
        binned(r, tris@, *h),
{
    let mut bins = TileBins::new(limits);
    proof {
        assert forall|a: int, b: int, c: int| in_window(a, b, c) implies bins.tile_ok(
            #[trigger] candidates(tris@, *h, 0, a, b, c),
            tile_index(a, b, c),
        ) by {
            lemma_tile_index(a, b, c, a, b, c);
            let e = seq![Seq::<usize>::empty()];
            assert(e.drop_last() =~= Seq::<Seq<usize>>::empty());
            assert(flatten(Seq::<Seq<usize>>::empty()) =~= Seq::<usize>::empty());
            assert(flatten(e) == flatten(e.drop_last()) + e.last());
            assert(flatten(e) =~= Seq::<usize>::empty());
            assert(bins.chunks(tile_index(a, b, c)) == e);
            assert(bins.ids_at(tile_index(a, b, c)) =~= Seq::<usize>::empty());
            assert(candidates(tris@, *h, 0, a, b, c).take(0) =~= Seq::<usize>::empty());
            assert(candidates(tris@, *h, 0, a, b, c) =~= Seq::<usize>::empty());
        }
    }
    let mut i: usize = 0;
    while i < tris.len()
        invariant
            i <= tris@.len(),
            h.valid(),
            bins.wf(),
            bins.limits_view() == limits,
            forall|a: int, b: int, c: int|
                in_window(a, b, c) ==> bins.tile_ok(
                    #[trigger] candidates(tris@, *h, i as int, a, b, c),
                    tile_index(a, b, c),
                ),
        decreases tris@.len() - i,
    {
        bins.bin_triangle(tris, h, i);
        i = i + 1;
    }
    bins
}

proof fn lemma_candidates_contains(tris: Seq<Triangle>, h: BinHeader, n: int, j: int, x: int, y: int, z: int)
    requires
        0 <= j < n,
        overlaps(tris[j], h, x, y, z),
    ensures
        candidates(tris, h, n, x, y, z).contains(j as usize),
    decreases n,
{
    lemma_candidates_step(tris, h, n - 1, x, y, z);
    if j < n - 1 {
        lemma_candidates_contains(tris, h, n - 1, j, x, y, z);
        let c = candidates(tris, h, n - 1, x, y, z);
        let w = choose|w: int| 0 <= w < c.len() && c[w] == j as usize;
        assert(candidates(tris, h, n, x, y, z)[w] == j as usize);
    } else {
        let c = candidates(tris, h, n - 1, x, y, z);
        assert(candidates(tris, h, n, x, y, z)[c.len() as int] == j as usize);
    }
}

/// Tile coverage: while the overflow budget is not spent, every triangle
/// whose bounding box meets a tile of the region is among that tile's ids.
pub proof fn lemma_tile_coverage(bins: TileBins, tris: Seq<Triangle>, h: BinHeader, j: int, x: int, y: int, z: int)
    requires
        binned(bins, tris, h),
        in_window(x, y, z),
        0 <= j < tris.len(),
        overlaps(tris[j], h, x, y, z),
        bins.virtual_count() < bins.limits_view().virtual_tiles,
    ensures
        bins.ids_at(tile_index(x, y, z)).contains(j as usize),
{
    let cand = candidates(tris, h, tris.len() as int, x, y, z);
    assert(bins.tile_ok(cand, tile_index(x, y, z)));
    lemma_candidates_contains(tris, h, tris.len() as int, j, x, y, z);
    assert(bins.ids_at(tile_index(x, y, z)) =~= cand);
}

/// The occupied lists of tile `t`, each tagged with the tile.
pub open spec fn tile_entries(t: int, chunks: Seq<Seq<usize>>) -> Seq<(int, Seq<usize>)> {
    if chunks.len() == 0 || chunks[0].len() == 0 {
        Seq::empty()
    } else {
        chunks.map_values(|c: Seq<usize>| (t, c))
    }
}

/// The occupied lists of the first `n` tiles, in tile order.
pub open spec fn occupied_upto(cs: Seq<Seq<Seq<usize>>>, n: int) -> Seq<(int, Seq<usize>)>
    decreases n,
{
    if n <= 0 {
        Seq::empty()
    } else {
        occupied_upto(cs, n - 1) + tile_entries(n - 1, cs[n - 1])
    }
}

fn copy_ids(v: &Vec<usize>) -> (r: Vec<usize>)
    ensures
        r@ == v@,
{
    let mut r: Vec<usize> = Vec::new();
    let mut i: usize = 0;
    while i < v.len()
        invariant
            i <= v@.len(),
            r@ =~= v@.take(i as int),
        decreases v@.len() - i,
    {
        r.push(v[i]);
        assert(v@.take(i as int + 1) =~= v@.take(i as int).push(v@[i as int]));
        i = i + 1;
    }
    r
}

pub open spec fn binned_view(v: Seq<BinnedTile>) -> Seq<(int, Seq<usize>)> {
    v.map_values(|b: BinnedTile| (b.tile as int, b.ids@))
}

impl TileBins {
    /// Overflow tiles allocated.
    pub fn virtual_used(&self) -> (r: usize)
        ensures
            r == self.virtual_count(),
    {
        self.virtual_used
    }

    /// Number of lists (own plus overflow) of tile `t`.
    pub fn list_count(&self, t: usize) -> (r: usize)
        requires
            self.wf(),
            t < TILE_COUNT,
        ensures
            r == self.chunks(t as int).len(),
    {
        self.chains[t].len()
    }

    /// Every id stored for tile `t`, own list first.
    pub fn tile_ids(&self, t: usize) -> (r: Vec<usize>)
        requires
            self.wf(),
            t < TILE_COUNT,
        ensures
            r@ == self.ids_at(t as int),
    {
        let chain = &self.chains[t];
        let mut r: Vec<usize> = Vec::new();
        let mut k: usize = 0;
        while k < chain.len()
            invariant
                k <= chain@.len(),
                chain@ == self.chains@[t as int]@,
                r@ == flatten(self.chunks(t as int).take(k as int)),
            decreases chain@.len() - k,
        {
            let list = &chain[k];
            let mut j: usize = 0;
            let ghost base = r@;
            while j < list.len()
                invariant
                    j <= list@.len(),
                    r@ =~= base + list@.take(j as int),
                decreases list@.len() - j,
            {
                r.push(list[j]);
                assert(list@.take(j as int + 1) =~= list@.take(j as int).push(list@[j as int]));
                j = j + 1;
            }
            proof {
                let c = self.chunks(t as int);
                assert(c.take(k as int + 1).drop_last() =~= c.take(k as int));
                assert(list@.take(j as int) =~= list@);
                assert(c[k as int] == list@);
            }
            k = k + 1;
        }
        assert(self.chunks(t as int).take(chain@.len() as int) =~= self.chunks(t as int));
        r
    }

    /// The occupied lists in tile order, own list first then overflow
    /// tiles: one entry per dispatch of the fine stage.
    pub fn occupied_tiles(&self) -> (r: Vec<BinnedTile>)
        requires
            self.wf(),
        ensures
            binned_view(r@) == occupied_upto(self.all_chunks(), TILE_COUNT as int),
    {
        let mut r: Vec<BinnedTile> = Vec::new();
        let mut t: usize = 0;
        while t < TILE_COUNT
            invariant
                t <= TILE_COUNT,
                self.wf(),
                binned_view(r@) == occupied_upto(self.all_chunks(), t as int),
            decreases TILE_COUNT - t,
        {
            let chain = &self.chains[t];
            let ghost base = binned_view(r@);
            let ghost c = self.chunks(t as int);
            assert(chain_ok(c, self.limits.ids_per_tile as int));
            if chain[0].len() > 0 {
                let mut k: usize = 0;
                while k < chain.len()
                    invariant
                        k <= chain@.len(),
                        chain@ == self.chains@[t as int]@,
                        c == chain@.map_values(|v: Vec<usize>| v@),
                        binned_view(r@) =~= base + c.take(k as int).map_values(|l: Seq<usize>| (t as int, l)),
                    decreases chain@.len() - k,
                {
                    let ids = copy_ids(&chain[k]);
                    let ghost before = r@;
                    r.push(BinnedTile { tile: t, ids });
                    proof {
                        assert(binned_view(r@) =~= binned_view(before).push((t as int, c[k as int])));
                        assert(c.take(k as int + 1) =~= c.take(k as int).push(c[k as int]));
                        assert(c.take(k as int + 1).map_values(|l: Seq<usize>| (t as int, l)) =~= c.take(
                            k as int,
                        ).map_values(|l: Seq<usize>| (t as int, l)).push((t as int, c[k as int])));
                    }
                    k = k + 1;
                }
                assert(c.take(chain@.len() as int) =~= c);
            }
            proof {
                assert(self.all_chunks()[t as int] == c);
                assert(occupied_upto(self.all_chunks(), t + 1) == occupied_upto(self.all_chunks(), t as int)
                    + tile_entries(t as int, c));
                if c[0].len() == 0 {
                    assert(binned_view(r@) =~= occupied_upto(self.all_chunks(), t + 1));
                }
            }
            t = t + 1;
        }
        r
    }
}

} // verus!
