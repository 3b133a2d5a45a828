//! The seed volume and jump-flood propagation: every cell records the
//! nearest surface cell found so far, and passes at decreasing power-of-two
//! steps let cells adopt closer seeds from their 26 neighbours at that step.

use vstd::prelude::*;
use crate::geom::IVec3;

verus! {

/// Largest cells per axis of a seed volume.
pub const MAX_SEED_DIM: usize = 1024;

/// Index of cell `(x, y, z)` in a volume of `d` cells per axis.
pub open spec fn cell_index(d: int, x: int, y: int, z: int) -> int {
    (x * d + y) * d + z
}

pub open spec fn in_volume(d: int, x: int, y: int, z: int) -> bool {
    0 <= x < d && 0 <= y < d && 0 <= z < d
}

/// A seed names a cell of the volume.
pub open spec fn seed_in(s: IVec3, d: int) -> bool {
    in_volume(d, s.x as int, s.y as int, s.z as int)
}

pub open spec fn sq(v: int) -> int {
    v * v
}

/// Squared distance from cell `(x, y, z)` to seed `s`, in cell units.
pub open spec fn dist2(x: int, y: int, z: int, s: IVec3) -> int {
    sq(s.x - x) + sq(s.y - y) + sq(s.z - z)
}

/// Seed `a` is at most as far from the cell as seed `b`; no seed is
/// infinitely far.
pub open spec fn no_farther(x: int, y: int, z: int, a: Option<IVec3>, b: Option<IVec3>) -> bool {
    match (a, b) {
        (_, None) => true,
        (None, Some(_)) => false,
        (Some(sa), Some(sb)) => dist2(x, y, z, sa) <= dist2(x, y, z, sb),
    }
}

/// Seed `a` is strictly nearer the cell than seed `b`.
pub open spec fn nearer(x: int, y: int, z: int, a: Option<IVec3>, b: Option<IVec3>) -> bool {
    !no_farther(x, y, z, b, a)
}

pub proof fn lemma_cell_index(d: int, x: int, y: int, z: int, x2: int, y2: int, z2: int)
    requires
        in_volume(d, x, y, z),
        in_volume(d, x2, y2, z2),
    ensures
        0 <= x * d <= x * d + y < d * d,
        0 <= cell_index(d, x, y, z) < d * d * d,
        cell_index(d, x, y, z) == cell_index(d, x2, y2, z2) ==> x == x2 && y == y2 && z == z2,
{
    let q = x * d + y;
    let q2 = x2 * d + y2;
    assert(0 <= x * d <= q < d * d) by (nonlinear_arith)
        requires
            0 <= x < d,
            0 <= y < d,
            q == x * d + y,
    ;
    assert(0 <= q2 < d * d) by (nonlinear_arith)
        requires
            0 <= x2 < d,
            0 <= y2 < d,
            q2 == x2 * d + y2,
    ;
    assert(0 <= q * d + z < d * d * d) by (nonlinear_arith)
        requires
            0 <= q < d * d,
            0 <= z < d,
    ;
    assert((x * d + y) * d <= (x * d + y) * d + z);
    if cell_index(d, x, y, z) == cell_index(d, x2, y2, z2) {
        vstd::arithmetic::div_mod::lemma_fundamental_div_mod_converse(q * d + z, d, q, z);
        vstd::arithmetic::div_mod::lemma_fundamental_div_mod_converse(q * d + z, d, q2, z2);
        vstd::arithmetic::div_mod::lemma_fundamental_div_mod_converse(q, d, x, y);
        vstd::arithmetic::div_mod::lemma_fundamental_div_mod_converse(q, d, x2, y2);
    }
}

pub proof fn lemma_dim_cube(d: int)
    requires
        1 <= d <= MAX_SEED_DIM,
    ensures
        d <= d * d <= 0x10_0000,
        d * d <= d * d * d <= 0x4000_0000,
{
    assert(d <= d * d <= 0x10_0000) by (nonlinear_arith)
        requires
            1 <= d <= 1024,
    ;
    assert(d * d <= d * d * d <= 0x4000_0000) by (nonlinear_arith)
        requires
            1 <= d <= 1024,
            d * d <= 0x10_0000,
    ;
}

/// A box of cells `lo <= c < hi` per axis.
#[derive(Clone, Copy, Debug, PartialEq, Eq, Structural)]
pub struct CellBox {
    pub lo_x: usize,
    pub lo_y: usize,
    pub lo_z: usize,
    pub hi_x: usize,
    pub hi_y: usize,
    pub hi_z: usize,
}

impl CellBox {
    pub open spec fn contains(self, x: int, y: int, z: int) -> bool {
        &&& self.lo_x <= x < self.hi_x
        &&& self.lo_y <= y < self.hi_y
        &&& self.lo_z <= z < self.hi_z
    }

    pub open spec fn within(self, d: int) -> bool {
        self.lo_x <= self.hi_x <= d && self.lo_y <= self.hi_y <= d && self.lo_z <= self.hi_z <= d
    }
}

/// A cubic grid of cells, each holding its nearest known seed or none.
pub struct SeedVolume {
    dim: usize,
    cells: Vec<Option<IVec3>>,
}

impl SeedVolume {
    pub closed spec fn dim_view(&self) -> int {
        self.dim as int
    }

    pub closed spec fn cells_view(&self) -> Seq<Option<IVec3>> {
        self.cells@
    }

    /// The seed recorded at cell `(x, y, z)`.
    pub open spec fn at(&self, x: int, y: int, z: int) -> Option<IVec3> {
        self.cells_view()[cell_index(self.dim_view(), x, y, z)]
    }

    pub open spec fn wf(&self) -> bool {
        &&& 1 <= self.dim_view() <= MAX_SEED_DIM
        &&& self.cells_view().len() == self.dim_view() * self.dim_view() * self.dim_view()
        &&& forall|i: int|
            0 <= i < self.cells_view().len() ==> (#[trigger] self.cells_view()[i] matches Some(s) ==> seed_in(
                s,
                self.dim_view(),
            ))
    }

    /// A volume of `dim` cells per axis with no seeds.
    pub fn new(dim: usize) -> (r: SeedVolume)
        requires
            1 <= dim <= MAX_SEED_DIM,
        ensures
            r.wf(),
            r.dim_view() == dim,
            forall|x: int, y: int, z: int| in_volume(dim as int, x, y, z) ==> (#[trigger] r.at(x, y, z)) is None,
    {
        proof {
            lemma_dim_cube(dim as int);
        }
        let total = dim * dim * dim;
        let mut cells: Vec<Option<IVec3>> = Vec::new();
        let mut i: usize = 0;
        while i < total
            invariant
                i <= total,
                cells@.len() == i,
                forall|j: int| 0 <= j < i ==> (#[trigger] cells@[j]) is None,
            decreases total - i,
        {
            cells.push(None);
            i = i + 1;
        }
        let r = SeedVolume { dim, cells };
        proof {
            assert forall|x: int, y: int, z: int| in_volume(dim as int, x, y, z) implies (#[trigger] r.at(
                x,
                y,
                z,
            )) is None by {
                lemma_cell_index(dim as int, x, y, z, x, y, z);
            }
        }
        r
    }

    pub fn dim(&self) -> (r: usize)
        ensures
            r == self.dim_view(),
    {
        self.dim
    }

    fn index(&self, x: usize, y: usize, z: usize) -> (r: usize)
        requires
            self.wf(),
            in_volume(self.dim_view(), x as int, y as int, z as int),
        ensures
            r as int == cell_index(self.dim_view(), x as int, y as int, z as int),
            r < self.cells_view().len(),
    {
        proof {
            lemma_cell_index(self.dim as int, x as int, y as int, z as int, x as int, y as int, z as int);
            lemma_dim_cube(self.dim as int);
        }
        (x * self.dim + y) * self.dim + z
    }

    /// The seed at cell `(x, y, z)`.
    pub fn get(&self, x: usize, y: usize, z: usize) -> (r: Option<IVec3>)
        requires
            self.wf(),
            in_volume(self.dim_view(), x as int, y as int, z as int),
        ensures
            r == self.at(x as int, y as int, z as int),
    {
        let i = self.index(x, y, z);
        self.cells[i]
    }

    /// Records `s` at cell `(x, y, z)`, leaving every other cell as it was.
    pub fn set(&mut self, x: usize, y: usize, z: usize, s: Option<IVec3>)
        requires
            old(self).wf(),
            in_volume(old(self).dim_view(), x as int, y as int, z as int),
            s matches Some(v) ==> seed_in(v, old(self).dim_view()),
        ensures
            final(self).wf(),
            final(self).dim_view() == old(self).dim_view(),
            final(self).at(x as int, y as int, z as int) == s,
            forall|a: int, b: int, c: int|
                in_volume(old(self).dim_view(), a, b, c) && !(a == x && b == y && c == z) ==> #[trigger] final(self).at(a, b, c)
                    == old(self).at(a, b, c),
    {
        let i = self.index(x, y, z);
        self.cells.set(i, s);
        proof {
            assert forall|a: int, b: int, c: int|
                in_volume(old(self).dim_view(), a, b, c) && !(a == x && b == y && c == z) implies #[trigger] self.at(
                a,
                b,
                c,
            ) == old(self).at(a, b, c) by {
                lemma_cell_index(self.dim as int, a, b, c, x as int, y as int, z as int);
            }
        }
    }
}

/// `v` moved by `-k`, `0` or `+k` as `d` is 0, 1 or 2.
pub open spec fn shift(v: int, d: int, k: int) -> int {
    if d == 0 {
        v - k
    } else if d == 1 {
        v
    } else {
        v + k
    }
}

/// Offset `(a, b, c)` (each 0, 1 or 2) at step `k` from cell `(x, y, z)`
/// lands inside the volume.
pub open spec fn neighbour_in(v: SeedVolume, x: int, y: int, z: int, k: int, a: int, b: int, c: int) -> bool {
    &&& 0 <= a < 3 && 0 <= b < 3 && 0 <= c < 3
    &&& in_volume(v.dim_view(), shift(x, a, k), shift(y, b, k), shift(z, c, k))
}

/// The seed of that neighbour.
pub open spec fn neighbour_seed(v: SeedVolume, x: int, y: int, z: int, k: int, a: int, b: int, c: int) -> Option<
    IVec3,
> {
    v.at(shift(x, a, k), shift(y, b, k), shift(z, c, k))
}

/// `s` is what a jump-flood pass at step `k` gives cell `(x, y, z)` of `v`:
/// the nearest of the cell's own seed and those of its in-volume neighbours
/// at offsets `-k, 0, +k` per axis; the cell keeps its own seed unless
/// another is strictly nearer.
pub open spec fn jfa_cell(v: SeedVolume, x: int, y: int, z: int, k: int, s: Option<IVec3>) -> bool {
    &&& s == v.at(x, y, z) || exists|a: int, b: int, c: int|
        neighbour_in(v, x, y, z, k, a, b, c) && s == #[trigger] neighbour_seed(v, x, y, z, k, a, b, c)
    &&& no_farther(x, y, z, s, v.at(x, y, z))
    &&& forall|a: int, b: int, c: int|
        neighbour_in(v, x, y, z, k, a, b, c) ==> no_farther(
            x,
            y,
            z,
            s,
            #[trigger] neighbour_seed(v, x, y, z, k, a, b, c),
        )
    &&& s != v.at(x, y, z) ==> nearer(x, y, z, s, v.at(x, y, z))
}

/// `w` is `v` after a jump-flood pass at step `k` over the cells of `region`;
/// cells outside it are untouched.
pub open spec fn jfa_step(v: SeedVolume, w: SeedVolume, k: int, region: CellBox) -> bool {
    &&& w.dim_view() == v.dim_view()
    &&& forall|x: int, y: int, z: int|
        in_volume(v.dim_view(), x, y, z) ==> if region.contains(x, y, z) {
            jfa_cell(v, x, y, z, k, #[trigger] w.at(x, y, z))
        } else {
            w.at(x, y, z) == v.at(x, y, z)
        }
}

fn dist2_exec(x: usize, y: usize, z: usize, s: IVec3) -> (r: i64)
    requires
        x < MAX_SEED_DIM && y < MAX_SEED_DIM && z < MAX_SEED_DIM,
        0 <= s.x < MAX_SEED_DIM && 0 <= s.y < MAX_SEED_DIM && 0 <= s.z < MAX_SEED_DIM,
    ensures
        r as int == dist2(x as int, y as int, z as int, s),
{
    let dx = s.x - x as i64;
    let dy = s.y - y as i64;
    let dz = s.z - z as i64;
    assert(dx * dx <= 1024 * 1024) by (nonlinear_arith)
        requires
            -1024 <= dx <= 1024,
    ;
    assert(dy * dy <= 1024 * 1024) by (nonlinear_arith)
        requires
            -1024 <= dy <= 1024,
    ;
    assert(dz * dz <= 1024 * 1024) by (nonlinear_arith)
        requires
            -1024 <= dz <= 1024,
    ;
    assert(0 <= dx * dx && 0 <= dy * dy && 0 <= dz * dz) by (nonlinear_arith);
    dx * dx + dy * dy + dz * dz
}

/// Whether seed `a` is strictly nearer cell `(x, y, z)` than seed `b`.
fn is_nearer(d: Ghost<int>, x: usize, y: usize, z: usize, a: Option<IVec3>, b: Option<IVec3>) -> (r: bool)
    requires
        1 <= d@ <= MAX_SEED_DIM,
        in_volume(d@, x as int, y as int, z as int),
        a matches Some(s) ==> seed_in(s, d@),
        b matches Some(s) ==> seed_in(s, d@),
    ensures
        r == nearer(x as int, y as int, z as int, a, b),
{
    match (a, b) {
        (None, _) => false,
        (Some(_), None) => true,
        (Some(sa), Some(sb)) => dist2_exec(x, y, z, sa) < dist2_exec(x, y, z, sb),
    }
}

fn shift_exec(v: usize, d: usize, k: usize) -> (r: i128)
    requires
        d < 3,
    ensures
        r as int == shift(v as int, d as int, k as int),
{
    if d == 0 {
        v as i128 - k as i128
    } else if d == 1 {
        v as i128
    } else {
        v as i128 + k as i128
    }
}

impl SeedVolume {
    /// The seed a jump-flood pass at step `k` gives cell `(x, y, z)`.
    pub fn best_seed(&self, x: usize, y: usize, z: usize, k: usize) -> (r: Option<IVec3>)
        requires
            self.wf(),
            in_volume(self.dim_view(), x as int, y as int, z as int),
        ensures
            jfa_cell(*self, x as int, y as int, z as int, k as int, r),
            r matches Some(s) ==> seed_in(s, self.dim_view()),
    {
        let d = Ghost(self.dim as int);
        let own = self.get(x, y, z);
        proof {
            lemma_cell_index(d@, x as int, y as int, z as int, x as int, y as int, z as int);
        }
        let mut best = own;
        let mut a: usize = 0;
        let mut b: usize = 0;
        let mut c: usize = 0;
        let mut o: usize = 0;
        while o < 27
            invariant
                self.wf(),
                d@ == self.dim_view(),
                in_volume(d@, x as int, y as int, z as int),
                own == self.at(x as int, y as int, z as int),
                own matches Some(s) ==> seed_in(s, d@),
                best matches Some(s) ==> seed_in(s, d@),
                o <= 27,
                a <= 3 && b < 3 && c < 3,
                o == a * 9 + b * 3 + c,
                best == own || exists|a2: int, b2: int, c2: int|
                    neighbour_in(*self, x as int, y as int, z as int, k as int, a2, b2, c2) && best
                        == #[trigger] neighbour_seed(*self, x as int, y as int, z as int, k as int, a2, b2, c2),
                no_farther(x as int, y as int, z as int, best, own),
                best != own ==> nearer(x as int, y as int, z as int, best, own),
                forall|a2: int, b2: int, c2: int|
                    neighbour_in(*self, x as int, y as int, z as int, k as int, a2, b2, c2) && a2 * 9 + b2 * 3 + c2
                        < o ==> no_farther(
                        x as int,
                        y as int,
                        z as int,
                        best,
                        #[trigger] neighbour_seed(*self, x as int, y as int, z as int, k as int, a2, b2, c2),
                    ),
            decreases 27 - o,
        {
            let qx = shift_exec(x, a, k);
            let qy = shift_exec(y, b, k);
            let qz = shift_exec(z, c, k);
            let dim = self.dim as i128;
            let ghost prev = best;
            if 0 <= qx && qx < dim && 0 <= qy && qy < dim && 0 <= qz && qz < dim {
                let cand = self.get(qx as usize, qy as usize, qz as usize);
                proof {
                    lemma_cell_index(d@, qx as int, qy as int, qz as int, qx as int, qy as int, qz as int);
                    assert(cand == neighbour_seed(*self, x as int, y as int, z as int, k as int, a as int, b as int, c as int));
                }
                if is_nearer(d, x, y, z, cand, best) {
                    best = cand;
                }
            }
            proof {
                assert forall|a2: int, b2: int, c2: int|
                    neighbour_in(*self, x as int, y as int, z as int, k as int, a2, b2, c2) && a2 * 9 + b2 * 3 + c2
                        < o + 1 implies no_farther(
                    x as int,
                    y as int,
                    z as int,
                    best,
                    #[trigger] neighbour_seed(*self, x as int, y as int, z as int, k as int, a2, b2, c2),
                ) by {
                    if a2 * 9 + b2 * 3 + c2 < o {
                        assert(no_farther(x as int, y as int, z as int, prev, neighbour_seed(*self, x as int, y as int, z as int, k as int, a2, b2, c2)));
                    } else {
                        assert(a2 == a && b2 == b && c2 == c);
                    }
                }
            }
            o = o + 1;
            c = c + 1;
            if c == 3 {
                c = 0;
                b = b + 1;
                if b == 3 {
                    b = 0;
                    a = a + 1;
                }
            }
        }
        best
    }
}

impl SeedVolume {
    /// A copy of the volume.
    pub fn copy(&self) -> (r: SeedVolume)
        requires
            self.wf(),
        ensures
            r.wf(),
            r.dim_view() == self.dim_view(),
            r.cells_view() == self.cells_view(),
    {
        let mut cells: Vec<Option<IVec3>> = Vec::new();
        let mut i: usize = 0;
        while i < self.cells.len()
            invariant
                i <= self.cells@.len(),
                cells@ =~= self.cells@.take(i as int),
            decreases self.cells@.len() - i,
        {
            cells.push(self.cells[i]);
            assert(self.cells@.take(i as int + 1) =~= self.cells@.take(i as int).push(self.cells@[i as int]));
            i = i + 1;
        }
        assert(self.cells@.take(self.cells@.len() as int) =~= self.cells@);
        SeedVolume { dim: self.dim, cells }
    }

    /// One jump-flood pass at step `k` over the cells of `region`: each such
    /// cell takes the nearest of its own seed and its neighbours' at offsets
    /// `-k, 0, +k` per axis, all read from the volume before the pass.
    pub fn jfa_pass(&self, k: usize, region: CellBox) -> (r: SeedVolume)
        requires
            self.wf(),
            region.within(self.dim_view()),
        ensures
            r.wf(),
            jfa_step(*self, r, k as int, region),
    {
        let mut w = self.copy();
        let ghost d = self.dim as int;
        let mut x: usize = region.lo_x;
        while x < region.hi_x
            invariant
                self.wf(),
                w.wf(),
                d == self.dim_view(),
                w.dim_view() == d,
                region.within(d),
                region.lo_x <= x <= region.hi_x,
                forall|a: int, b: int, c: int|
                    in_volume(d, a, b, c) ==> if region.contains(a, b, c) && a < x {
                        jfa_cell(*self, a, b, c, k as int, #[trigger] w.at(a, b, c))
                    } else {
                        w.at(a, b, c) == self.at(a, b, c)
                    },
            decreases region.hi_x - x,
        {
            let mut y: usize = region.lo_y;
            while y < region.hi_y
                invariant
                    self.wf(),
                    w.wf(),
                    d == self.dim_view(),
                    w.dim_view() == d,
                    region.within(d),
                    region.lo_x <= x < region.hi_x,
                    region.lo_y <= y <= region.hi_y,
                    forall|a: int, b: int, c: int|
                        in_volume(d, a, b, c) ==> if region.contains(a, b, c) && (a < x || (a == x && b < y)) {
                            jfa_cell(*self, a, b, c, k as int, #[trigger] w.at(a, b, c))
                        } else {
                            w.at(a, b, c) == self.at(a, b, c)
                        },
                decreases region.hi_y - y,
            {
                let mut z: usize = region.lo_z;
                while z < region.hi_z
                    invariant
                        self.wf(),
                        w.wf(),
                        d == self.dim_view(),
                        w.dim_view() == d,
                        region.within(d),
                        region.lo_x <= x < region.hi_x,
                        region.lo_y <= y < region.hi_y,
                        region.lo_z <= z <= region.hi_z,
                        forall|a: int, b: int, c: int|
                            in_volume(d, a, b, c) ==> if region.contains(a, b, c) && (a < x || (a == x && (b < y || (
                            b == y && c < z)))) {
                                jfa_cell(*self, a, b, c, k as int, #[trigger] w.at(a, b, c))
                            } else {
                                w.at(a, b, c) == self.at(a, b, c)
                            },
                    decreases region.hi_z - z,
                {
                    let s = self.best_seed(x, y, z, k);
                    w.set(x, y, z, s);
                    z = z + 1;
                }
                y = y + 1;
            }
            x = x + 1;
        }
        w
    }
}

/// The distance a cell's seed stands from it never grows in a pass.
pub proof fn lemma_jfa_no_farther(v: SeedVolume, w: SeedVolume, k: int, region: CellBox, x: int, y: int, z: int)
    requires
        jfa_step(v, w, k, region),
        in_volume(v.dim_view(), x, y, z),
    ensures
        no_farther(x, y, z, w.at(x, y, z), v.at(x, y, z)),
{
    if region.contains(x, y, z) {
        assert(jfa_cell(v, x, y, z, k, w.at(x, y, z)));
    } else {
        assert(w.at(x, y, z) == v.at(x, y, z));
        let s = v.at(x, y, z);
        if s is Some {
            assert(dist2(x, y, z, s.unwrap()) <= dist2(x, y, z, s.unwrap()));
        }
    }
}

/// The step sizes of a propagation run over `n` cells per axis: powers of
/// two halving down to 1, the largest the least one that is at least half of `n`.
pub open spec fn steps_ok(steps: Seq<usize>, n: int) -> bool {
    &&& steps.len() >= 1
    &&& steps.last() == 1
    &&& forall|i: int| 0 <= i < steps.len() - 1 ==> #[trigger] steps[i] == 2 * steps[i + 1]
    &&& 2 * steps[0] >= n
    &&& steps[0] == 1 || steps[0] < n
}

pub open spec fn is_pow2(n: int) -> bool
    decreases n,
{
    if n <= 1 {
        n == 1
    } else {
        n % 2 == 0 && is_pow2(n / 2)
    }
}

/// The step sizes of a jump-flood run over `n` cells per axis.
pub fn jfa_steps(n: usize) -> (r: Vec<usize>)
    requires
        n <= MAX_SEED_DIM,
    ensures
        steps_ok(r@, n as int),
{
    let mut top: usize = 1;
    while 2 * top < n
        invariant
            1 <= top,
            is_pow2(top as int),
            top == 1 || top < n,
            n <= MAX_SEED_DIM,
        decreases n - top,
    {
        assert(is_pow2(2 * top as int)) by {
            assert((2 * top) / 2 == top);
        }
        top = 2 * top;
    }
    let mut r: Vec<usize> = Vec::new();
    let mut step = top;
    r.push(step);
    while step > 1
        invariant
            1 <= step,
            r@.len() >= 1,
            r@[0] == top,
            r@.last() == step,
            forall|i: int| 0 <= i < r@.len() - 1 ==> #[trigger] r@[i] == 2 * r@[i + 1],
            is_pow2(step as int),
        decreases step,
    {
        step = step / 2;
        r.push(step);
        assert(r@[r@.len() - 2] == 2 * r@[r@.len() - 1]);
    }
    r
}

/// `chain` runs from `v` through one pass per step, in order, and a final
/// pass at step 1 leads from its last volume to `r`.
pub open spec fn propagation_run(v: SeedVolume, r: SeedVolume, region: CellBox, steps: Seq<usize>, chain: Seq<SeedVolume>) -> bool {
    &&& chain.len() == steps.len() + 1
    &&& chain[0].dim_view() == v.dim_view()
    &&& chain[0].cells_view() == v.cells_view()
    &&& forall|j: int| 0 <= j < steps.len() ==> #[trigger] jfa_step(chain[j], chain[j + 1], steps[j] as int, region)
    &&& jfa_step(chain[steps.len() as int], r, 1, region)
}

impl SeedVolume {
    /// A full propagation over `region`: one pass per step, in order, then a
    /// stitching pass at step 1 that reconciles seeds across tile boundaries.
    /// No cell ends farther from its seed than it began, and cells outside
    /// the region are untouched.
    pub fn propagate(&self, region: CellBox, steps: &Vec<usize>) -> (r: SeedVolume)
        requires
            self.wf(),
            region.within(self.dim_view()),
        ensures
            r.wf(),
            r.dim_view() == self.dim_view(),
            forall|x: int, y: int, z: int|
                in_volume(self.dim_view(), x, y, z) ==> no_farther(x, y, z, #[trigger] r.at(x, y, z), self.at(x, y, z)),
            forall|x: int, y: int, z: int|
                in_volume(self.dim_view(), x, y, z) && !region.contains(x, y, z) ==> #[trigger] r.at(x, y, z)
                    == self.at(x, y, z),
            exists|chain: Seq<SeedVolume>| #[trigger] propagation_run(*self, r, region, steps@, chain),
    {
        let mut v = self.copy();
        let ghost mut chain: Seq<SeedVolume> = seq![v];
        let mut i: usize = 0;
        while i < steps.len()
            invariant
                self.wf(),
                v.wf(),
                chain.len() == i + 1,
                chain[0].dim_view() == self.dim_view(),
                chain[0].cells_view() == self.cells_view(),
                chain[i as int] == v,
                forall|j: int|
                    0 <= j < i ==> #[trigger] jfa_step(chain[j], chain[j + 1], steps@[j] as int, region),
                v.dim_view() == self.dim_view(),
                region.within(self.dim_view()),
                i <= steps@.len(),
                forall|x: int, y: int, z: int|
                    in_volume(self.dim_view(), x, y, z) ==> no_farther(x, y, z, #[trigger] v.at(x, y, z), self.at(x, y, z)),
                forall|x: int, y: int, z: int|
                    in_volume(self.dim_view(), x, y, z) && !region.contains(x, y, z) ==> #[trigger] v.at(x, y, z)
                        == self.at(x, y, z),
            decreases steps@.len() - i,
        {
            let next = v.jfa_pass(steps[i], region);
            proof {
                lemma_pass_keeps(self, &v, &next, steps@[i as int] as int, region);
            }
            proof {
                chain = chain.push(next);
            }
            v = next;
            i = i + 1;
        }
        let r = v.jfa_pass(1, region);
        proof {
            lemma_pass_keeps(self, &v, &r, 1, region);
            assert(propagation_run(*self, r, region, steps@, chain));
        }
        r
    }
}

proof fn lemma_no_farther_trans(x: int, y: int, z: int, a: Option<IVec3>, b: Option<IVec3>, c: Option<IVec3>)
    requires
        no_farther(x, y, z, a, b),
        no_farther(x, y, z, b, c),
    ensures
        no_farther(x, y, z, a, c),
{
}

proof fn lemma_pass_keeps(base: &SeedVolume, v: &SeedVolume, w: &SeedVolume, k: int, region: CellBox)
    requires
        v.dim_view() == base.dim_view(),
        jfa_step(*v, *w, k, region),
        forall|x: int, y: int, z: int|
            in_volume(base.dim_view(), x, y, z) ==> no_farther(x, y, z, #[trigger] v.at(x, y, z), base.at(x, y, z)),
        forall|x: int, y: int, z: int|
            in_volume(base.dim_view(), x, y, z) && !region.contains(x, y, z) ==> #[trigger] v.at(x, y, z) == base.at(
                x,
                y,
                z,
            ),
    ensures
        forall|x: int, y: int, z: int|
            in_volume(base.dim_view(), x, y, z) ==> no_farther(x, y, z, #[trigger] w.at(x, y, z), base.at(x, y, z)),
        forall|x: int, y: int, z: int|
            in_volume(base.dim_view(), x, y, z) && !region.contains(x, y, z) ==> #[trigger] w.at(x, y, z) == base.at(
                x,
                y,
                z,
            ),
{
    assert forall|x: int, y: int, z: int| in_volume(base.dim_view(), x, y, z) implies no_farther(
        x,
        y,
        z,
        #[trigger] w.at(x, y, z),
        base.at(x, y, z),
    ) by {
        lemma_jfa_no_farther(*v, *w, k, region, x, y, z);
        lemma_no_farther_trans(x, y, z, w.at(x, y, z), v.at(x, y, z), base.at(x, y, z));
    }
    assert forall|x: int, y: int, z: int|
        in_volume(base.dim_view(), x, y, z) && !region.contains(x, y, z) implies #[trigger] w.at(x, y, z) == base.at(
        x,
        y,
        z,
    ) by {
        assert(w.at(x, y, z) == v.at(x, y, z));
    }
}

/// After a step-1 pass (the stitching pass), a cell of the region is no
/// farther from its seed than from the seed that any cell next to it along
/// one axis, across a tile boundary or not, held before the pass.
pub proof fn lemma_stitch_neighbour_bound(
    v: SeedVolume,
    w: SeedVolume,
    region: CellBox,
    x: int,
    y: int,
    z: int,
    a: int,
    b: int,
    c: int,
)
    requires
        jfa_step(v, w, 1, region),
        in_volume(v.dim_view(), x, y, z),
        region.contains(x, y, z),
        0 <= a < 3 && 0 <= b < 3 && 0 <= c < 3,
        in_volume(v.dim_view(), x + a - 1, y + b - 1, z + c - 1),
    ensures
        no_farther(x, y, z, w.at(x, y, z), v.at(x + a - 1, y + b - 1, z + c - 1)),
{
    assert(jfa_cell(v, x, y, z, 1, w.at(x, y, z)));
    assert(shift(x, a, 1) == x + a - 1 && shift(y, b, 1) == y + b - 1 && shift(z, c, 1) == z + c - 1);
    assert(neighbour_in(v, x, y, z, 1, a, b, c));
    assert(no_farther(x, y, z, w.at(x, y, z), neighbour_seed(v, x, y, z, 1, a, b, c)));
}

proof fn lemma_chain_monotone(
    v: SeedVolume,
    r: SeedVolume,
    region: CellBox,
    steps: Seq<usize>,
    chain: Seq<SeedVolume>,
    j: int,
    k: int,
    x: int,
    y: int,
    z: int,
)
    requires
        propagation_run(v, r, region, steps, chain),
        0 <= j <= k <= steps.len(),
        in_volume(v.dim_view(), x, y, z),
    ensures
        no_farther(x, y, z, chain[k].at(x, y, z), chain[j].at(x, y, z)),
    decreases k - j,
{
    if j == k {
        let s = chain[k].at(x, y, z);
        if s is Some {
            assert(dist2(x, y, z, s.unwrap()) <= dist2(x, y, z, s.unwrap()));
        }
    } else {
        lemma_chain_monotone(v, r, region, steps, chain, j + 1, k, x, y, z);
        lemma_run_dims(v, r, region, steps, chain, j);
        assert(jfa_step(chain[j], chain[j + 1], steps[j] as int, region));
        lemma_jfa_no_farther(chain[j], chain[j + 1], steps[j] as int, region, x, y, z);
        lemma_no_farther_trans(x, y, z, chain[k].at(x, y, z), chain[j + 1].at(x, y, z), chain[j].at(x, y, z));
    }
}

/// Within one propagation run, every cell's seed distance is non-increasing
/// from pass to pass: a later volume of the run is never farther, at any
/// cell, than an earlier one, and the result is never farther than either.
pub proof fn lemma_run_monotone(
    v: SeedVolume,
    r: SeedVolume,
    region: CellBox,
    steps: Seq<usize>,
    chain: Seq<SeedVolume>,
    j: int,
    k: int,
    x: int,
    y: int,
    z: int,
)
    requires
        propagation_run(v, r, region, steps, chain),
        0 <= j <= k <= steps.len(),
        in_volume(v.dim_view(), x, y, z),
    ensures
        no_farther(x, y, z, chain[k].at(x, y, z), chain[j].at(x, y, z)),
        no_farther(x, y, z, r.at(x, y, z), chain[k].at(x, y, z)),
{
    let last = steps.len() as int;
    lemma_chain_monotone(v, r, region, steps, chain, j, k, x, y, z);
    lemma_chain_monotone(v, r, region, steps, chain, k, last, x, y, z);
    lemma_run_dims(v, r, region, steps, chain, last);
    lemma_jfa_no_farther(chain[last], r, 1, region, x, y, z);
    lemma_no_farther_trans(x, y, z, r.at(x, y, z), chain[last].at(x, y, z), chain[k].at(x, y, z));
}

proof fn lemma_run_dims(
    v: SeedVolume,
    r: SeedVolume,
    region: CellBox,
    steps: Seq<usize>,
    chain: Seq<SeedVolume>,
    k: int,
)
    requires
        propagation_run(v, r, region, steps, chain),
        0 <= k <= steps.len(),
    ensures
        chain[k].dim_view() == v.dim_view(),
    decreases k,
{
    if k > 0 {
        let j = k - 1;
        lemma_run_dims(v, r, region, steps, chain, j);
        assert(jfa_step(chain[j], chain[j + 1], steps[j] as int, region));
    }
}

} // verus!
