//! Distance extraction: each voxel of the redrawn region takes the distance
//! from its centre to the nearest seed recorded in its cells, written into
//! the cascade's slice of the shared output volume.

use vstd::prelude::*;
use crate::geom::IVec3;
use crate::seeds::{SeedVolume, in_volume, sq, MAX_SEED_DIM};

verus! {

/// Output value of a voxel with no seed in reach.
pub const FAR: u32 = 0xffff_ffff;

/// Output distances are in units of a voxel divided by this.
pub const DISTANCE_SCALE: u64 = 256;

/// `r` is the integer square root of `v`.
pub open spec fn is_isqrt(v: int, r: int) -> bool {
    0 <= r && r * r <= v && v < (r + 1) * (r + 1)
}

/// Integer square root, for values below 2^42.
pub fn isqrt(v: u64) -> (r: u64)
    requires
        v < 0x400_0000_0000,
    ensures
        is_isqrt(v as int, r as int),
{
    let mut lo: u64 = 0;
    let mut hi: u64 = 0x20_0000;
    assert(0x20_0000 * 0x20_0000 == 0x400_0000_0000) by (nonlinear_arith);
    while hi - lo > 1
        invariant
            lo < hi <= 0x20_0000,
            lo * lo <= v,
            v < hi * hi,
        decreases hi - lo,
    {
        let mid = lo + (hi - lo) / 2;
        assert(mid * mid <= 0x20_0000 * 0x20_0000) by (nonlinear_arith)
            requires
                mid <= 0x20_0000,
        ;
        if mid * mid <= v {
            lo = mid;
        } else {
            hi = mid;
        }
    }
    lo
}

/// Squared distance, in half-cell units, from the centre of voxel
/// `(vx, vy, vz)` (each `s` cells a side) to the centre of the seed's cell.
pub open spec fn voxel_dist2(s: int, vx: int, vy: int, vz: int, seed: IVec3) -> int {
    sq(2 * seed.x + 1 - (2 * vx * s + s)) + sq(2 * seed.y + 1 - (2 * vy * s + s)) + sq(2 * seed.z + 1 - (2
        * vz * s + s))
}

/// Cell `(x, y, z)` lies in voxel `(vx, vy, vz)`.
pub open spec fn in_voxel(s: int, vx: int, vy: int, vz: int, x: int, y: int, z: int) -> bool {
    &&& vx * s <= x < vx * s + s
    &&& vy * s <= y < vy * s + s
    &&& vz * s <= z < vz * s + s
}

/// `best` is the least squared distance from the voxel's centre to a seed
/// recorded in one of its cells, or `None` when none of them holds a seed.
pub open spec fn voxel_best(v: SeedVolume, s: int, vx: int, vy: int, vz: int, best: Option<int>) -> bool {
    match best {
        None => forall|x: int, y: int, z: int|
            in_voxel(s, vx, vy, vz, x, y, z) ==> (#[trigger] v.at(x, y, z)) is None,
        Some(d) => {
            &&& exists|x: int, y: int, z: int|
                in_voxel(s, vx, vy, vz, x, y, z) && (#[trigger] v.at(x, y, z)) is Some && voxel_dist2(
                    s,
                    vx,
                    vy,
                    vz,
                    v.at(x, y, z).unwrap(),
                ) == d
            &&& forall|x: int, y: int, z: int|
                in_voxel(s, vx, vy, vz, x, y, z) && #[trigger] v.at(x, y, z) is Some ==> d <= voxel_dist2(
                    s,
                    vx,
                    vy,
                    vz,
                    v.at(x, y, z).unwrap(),
                )
        },
    }
}

/// The output value for a least squared distance: the distance in units
/// of `1 / DISTANCE_SCALE` voxel, rounded down; `FAR` without a seed.
pub open spec fn output_value(s: int, best: Option<int>, out: u32) -> bool {
    match best {
        None => out == FAR,
        Some(d) => is_isqrt(d * (DISTANCE_SCALE * DISTANCE_SCALE) as int / (4 * s * s), out as int),
    }
}

fn voxel_dist2_exec(s: usize, vx: usize, vy: usize, vz: usize, seed: IVec3) -> (r: u64)
    requires
        1 <= s <= 4,
        vx * s < MAX_SEED_DIM && vy * s < MAX_SEED_DIM && vz * s < MAX_SEED_DIM,
        0 <= seed.x < MAX_SEED_DIM && 0 <= seed.y < MAX_SEED_DIM && 0 <= seed.z < MAX_SEED_DIM,
    ensures
        r as int == voxel_dist2(s as int, vx as int, vy as int, vz as int, seed),
        r <= 3 * 0x100_0000,
{
    let dx = 2 * seed.x + 1 - (2 * (vx * s) as i64 + s as i64);
    let dy = 2 * seed.y + 1 - (2 * (vy * s) as i64 + s as i64);
    let dz = 2 * seed.z + 1 - (2 * (vz * s) as i64 + s as i64);
    assert(dx * dx <= 0x100_0000 && dx * dx >= 0) by (nonlinear_arith)
        requires
            -4096 <= dx <= 4096,
    ;
    assert(dy * dy <= 0x100_0000 && dy * dy >= 0) by (nonlinear_arith)
        requires
            -4096 <= dy <= 4096,
    ;
    assert(dz * dz <= 0x100_0000 && dz * dz >= 0) by (nonlinear_arith)
        requires
            -4096 <= dz <= 4096,
    ;
    assert(2 * (vx * s) == 2 * vx * s && 2 * (vy * s) == 2 * vy * s && 2 * (vz * s) == 2 * vz * s) by (nonlinear_arith);
    (dx * dx + dy * dy + dz * dz) as u64
}

pub open spec fn visited3(c: (int, int, int), x: int, y: int, z: int) -> bool {
    x < c.0 || (x == c.0 && (y < c.1 || (y == c.1 && z < c.2)))
}

/// The least squared distance over the cells of the voxel for which
/// `vis` holds is `best`.
pub open spec fn best_among(
    v: SeedVolume,
    s: int,
    vx: int,
    vy: int,
    vz: int,
    c: (int, int, int),
    best: Option<int>,
) -> bool {
    match best {
        None => forall|x: int, y: int, z: int|
            in_voxel(s, vx, vy, vz, x, y, z) && visited3(c, x, y, z) ==> (#[trigger] v.at(x, y, z)) is None,
        Some(d) => {
            &&& exists|x: int, y: int, z: int|
                in_voxel(s, vx, vy, vz, x, y, z) && visited3(c, x, y, z) && (#[trigger] v.at(x, y, z)) is Some
                    && voxel_dist2(s, vx, vy, vz, v.at(x, y, z).unwrap()) == d
            &&& forall|x: int, y: int, z: int|
                in_voxel(s, vx, vy, vz, x, y, z) && visited3(c, x, y, z) && #[trigger] v.at(x, y, z) is Some
                    ==> d <= voxel_dist2(s, vx, vy, vz, v.at(x, y, z).unwrap())
        },
    }
}

proof fn lemma_best_same(
    v: SeedVolume,
    s: int,
    vx: int,
    vy: int,
    vz: int,
    c1: (int, int, int),
    c2: (int, int, int),
    best: Option<int>,
)
    requires
        best_among(v, s, vx, vy, vz, c1, best),
        forall|x: int, y: int, z: int|
            in_voxel(s, vx, vy, vz, x, y, z) ==> visited3(c1, x, y, z) == visited3(c2,
                x,
                y,
                z,
            ),
    ensures
        best_among(v, s, vx, vy, vz, c2, best),
{
    match best {
        None => {
            assert forall|x: int, y: int, z: int|
                in_voxel(s, vx, vy, vz, x, y, z) && visited3(c2, x, y, z) implies (#[trigger] v.at(x, y, z)) is None by {
                assert(visited3(c1, x, y, z));
            }
        },
        Some(d) => {
            let (x, y, z) = choose|x: int, y: int, z: int|
                in_voxel(s, vx, vy, vz, x, y, z) && visited3(c1, x, y, z) && (#[trigger] v.at(x, y, z)) is Some
                    && voxel_dist2(s, vx, vy, vz, v.at(x, y, z).unwrap()) == d;
            assert(visited3(c2, x, y, z));
            assert forall|x: int, y: int, z: int|
                in_voxel(s, vx, vy, vz, x, y, z) && visited3(c2, x, y, z) && #[trigger] v.at(x, y, z) is Some
                    implies d <= voxel_dist2(s, vx, vy, vz, v.at(x, y, z).unwrap()) by {
                assert(visited3(c1, x, y, z));
            }
        },
    }
}

/// The least squared distance from the voxel's centre to a seed in its cells.
pub fn voxel_min(v: &SeedVolume, s: usize, vx: usize, vy: usize, vz: usize) -> (r: Option<u64>)
    requires
        v.wf(),
        1 <= s <= 4,
        in_volume(v.dim_view(), (vx * s) as int, (vy * s) as int, (vz * s) as int),
        vx * s + s <= v.dim_view() && vy * s + s <= v.dim_view() && vz * s + s <= v.dim_view(),
    ensures
        voxel_best(*v, s as int, vx as int, vy as int, vz as int, match r {
            Some(d) => Some(d as int),
            None => None,
        }),
        r matches Some(d) ==> d <= 3 * 0x100_0000,
{
    let ghost sv = s as int;
    let x0 = vx * s;
    let y0 = vy * s;
    let z0 = vz * s;
    let mut best: Option<u64> = None;
    let mut x = x0;
    while x < x0 + s
        invariant
            v.wf(),
            1 <= s <= 4,
            x0 == vx * s && y0 == vy * s && z0 == vz * s,
            x0 + s <= v.dim_view() && y0 + s <= v.dim_view() && z0 + s <= v.dim_view(),
            sv == s,
            x0 <= x <= x0 + s,
            best matches Some(d) ==> d <= 3 * 0x100_0000,
            best_among(*v, sv, vx as int, vy as int, vz as int, (x as int, y0 as int, z0 as int), match best {
                Some(d) => Some(d as int),
                None => None,
            }),
        decreases x0 + s - x,
    {
        let mut y = y0;
        while y < y0 + s
            invariant
                v.wf(),
                1 <= s <= 4,
                x0 == vx * s && y0 == vy * s && z0 == vz * s,
                x0 + s <= v.dim_view() && y0 + s <= v.dim_view() && z0 + s <= v.dim_view(),
                sv == s,
                x0 <= x < x0 + s,
                y0 <= y <= y0 + s,
                best matches Some(d) ==> d <= 3 * 0x100_0000,
                best_among(*v, sv, vx as int, vy as int, vz as int, (x as int, y as int, z0 as int), match best {
                    Some(d) => Some(d as int),
                    None => None,
                }),
            decreases y0 + s - y,
        {
            let mut z = z0;
            while z < z0 + s
                invariant
                    v.wf(),
                    1 <= s <= 4,
                    x0 == vx * s && y0 == vy * s && z0 == vz * s,
                    x0 + s <= v.dim_view() && y0 + s <= v.dim_view() && z0 + s <= v.dim_view(),
                    sv == s,
                    x0 <= x < x0 + s,
                    y0 <= y < y0 + s,
                    z0 <= z <= z0 + s,
                    best matches Some(d) ==> d <= 3 * 0x100_0000,
                    best_among(*v, sv, vx as int, vy as int, vz as int, (x as int, y as int, z as int), match best {
                        Some(d) => Some(d as int),
                        None => None,
                    }),
                decreases z0 + s - z,
            {
                let cell = v.get(x, y, z);
                let ghost prev = best;
                proof {
                    crate::seeds::lemma_cell_index(v.dim_view(), x as int, y as int, z as int, x as int, y as int, z as int);
                }
                match cell {
                    Some(q) => {
                        assert(crate::seeds::seed_in(q, v.dim_view()));
                        let dq = voxel_dist2_exec(s, vx, vy, vz, q);
                        match best {
                            None => {
                                best = Some(dq);
                            },
                            Some(d) => {
                                if dq < d {
                                    best = Some(dq);
                                }
                            },
                        }
                    },
                    None => {},
                }
                proof {
                    let c1 = (x as int, y as int, z as int);
                    let c2 = (x as int, y as int, z + 1);
                    let bo = match best {
                        Some(d) => Some(d as int),
                        None => None::<int>,
                    };
                    let po = match prev {
                        Some(d) => Some(d as int),
                        None => None::<int>,
                    };
                    assert(best_among(*v, sv, vx as int, vy as int, vz as int, c1, po));
                    assert(in_voxel(sv, vx as int, vy as int, vz as int, x as int, y as int, z as int));
                    match bo {
                        None => {
                            assert forall|a: int, b: int, c: int|
                                in_voxel(sv, vx as int, vy as int, vz as int, a, b, c) && visited3(c2, a, b, c) implies (
                            #[trigger] v.at(a, b, c)) is None by {
                                if !(a == x && b == y && c == z) {
                                    assert(visited3(c1, a, b, c));
                                }
                            }
                        },
                        Some(d) => {
                            if cell is Some && (po is None || voxel_dist2(sv, vx as int, vy as int, vz as int, cell.unwrap()) < po.unwrap()) {
                                assert(in_voxel(sv, vx as int, vy as int, vz as int, x as int, y as int, z as int) && visited3(c2, x as int, y as int, z as int) && (v.at(x as int, y as int, z as int)) is Some
                                    && voxel_dist2(sv, vx as int, vy as int, vz as int, v.at(x as int, y as int, z as int).unwrap()) == d);
                            } else {
                                let (a, b, c) = choose|a: int, b: int, c: int|
                                    in_voxel(sv, vx as int, vy as int, vz as int, a, b, c) && visited3(c1, a, b, c) && (#[trigger] v.at(a, b, c)) is Some
                                        && voxel_dist2(sv, vx as int, vy as int, vz as int, v.at(a, b, c).unwrap()) == d;
                                assert(visited3(c2, a, b, c));
                            }
                            assert forall|a: int, b: int, c: int|
                                in_voxel(sv, vx as int, vy as int, vz as int, a, b, c) && visited3(c2, a, b, c) && #[trigger] v.at(a, b, c) is Some
                                    implies d <= voxel_dist2(sv, vx as int, vy as int, vz as int, v.at(a, b, c).unwrap()) by {
                                if !(a == x && b == y && c == z) {
                                    assert(visited3(c1, a, b, c));
                                }
                            }
                        },
                    }
                }
                z = z + 1;
            }
            proof {
                lemma_best_same(*v, sv, vx as int, vy as int, vz as int, (x as int, y as int, (z0 + s) as int), (x as int, y + 1, z0 as int), match best {
                    Some(d) => Some(d as int),
                    None => None,
                });
            }
            y = y + 1;
        }
        proof {
            lemma_best_same(*v, sv, vx as int, vy as int, vz as int, (x as int, (y0 + s) as int, z0 as int), (x + 1, y0 as int, z0 as int), match best {
                Some(d) => Some(d as int),
                None => None,
            });
        }
        x = x + 1;
    }
    proof {
        let bo = match best {
            Some(d) => Some(d as int),
            None => None::<int>,
        };
        let cend = ((x0 + s) as int, y0 as int, z0 as int);
        assert forall|a: int, b: int, c: int| in_voxel(sv, vx as int, vy as int, vz as int, a, b, c) implies visited3(cend, a, b, c) by {}
        match bo {
            None => {},
            Some(d) => {
                let (a, b, c) = choose|a: int, b: int, c: int|
                    in_voxel(sv, vx as int, vy as int, vz as int, a, b, c) && visited3(cend, a, b, c) && (#[trigger] v.at(a, b, c)) is Some
                        && voxel_dist2(sv, vx as int, vy as int, vz as int, v.at(a, b, c).unwrap()) == d;
                assert(in_voxel(sv, vx as int, vy as int, vz as int, a, b, c) && (v.at(a, b, c)) is Some
                        && voxel_dist2(sv, vx as int, vy as int, vz as int, v.at(a, b, c).unwrap()) == d);
            },
        }
    }
    best
}

/// The output value of voxel `(vx, vy, vz)`.
pub fn voxel_value(v: &SeedVolume, s: usize, vx: usize, vy: usize, vz: usize) -> (r: u32)
    requires
        v.wf(),
        1 <= s <= 4,
        in_volume(v.dim_view(), (vx * s) as int, (vy * s) as int, (vz * s) as int),
        vx * s + s <= v.dim_view() && vy * s + s <= v.dim_view() && vz * s + s <= v.dim_view(),
    ensures
        exists|best: Option<int>|
            voxel_best(*v, s as int, vx as int, vy as int, vz as int, best) && #[trigger] output_value(
                s as int,
                best,
                r,
            ),
{
    let m = voxel_min(v, s, vx, vy, vz);
    match m {
        None => {
            assert(output_value(s as int, None, FAR));
            FAR
        },
        Some(d) => {
            assert(4 <= 4 * (s as u64) * (s as u64) <= 64) by (nonlinear_arith)
                requires
                    1 <= s <= 4,
            ;
            let k = 4 * (s as u64) * (s as u64);
            let scaled = d * (DISTANCE_SCALE * DISTANCE_SCALE) / k;
            assert(scaled <= d * 65536) by {
                vstd::arithmetic::div_mod::lemma_div_is_ordered_by_denominator((d * 65536) as int, 1, k as int);
            }
            let r = isqrt(scaled);
            assert(r < 0x20_0000) by (nonlinear_arith)
                requires
                    r * r <= scaled,
                    scaled < 0x400_0000_0000,
            ;
            assert(output_value(s as int, Some(d as int), r as u32));
            r as u32
        },
    }
}

/// The shared output volume: for each cascade, `dim` voxels per axis of
/// distances; cascade `c` occupies the voxels `c * dim <= x < (c + 1) * dim`
/// of the one physical volume, the cascades side by side along x.
pub struct SdfOutput {
    dim: usize,
    slices: Vec<Vec<u32>>,
}

impl SdfOutput {
    pub closed spec fn dim_view(&self) -> int {
        self.dim as int
    }

    pub closed spec fn cascade_count(&self) -> int {
        self.slices@.len() as int
    }

    /// Voxel `(x, y, z)` of cascade `c`.
    pub closed spec fn value(&self, c: int, x: int, y: int, z: int) -> u32 {
        self.slices@[c]@[crate::seeds::cell_index(self.dim as int, x, y, z)]
    }

    pub closed spec fn wf(&self) -> bool {
        &&& 1 <= self.dim <= MAX_SEED_DIM
        &&& forall|c: int|
            0 <= c < self.slices@.len() ==> (#[trigger] self.slices@[c])@.len() == self.dim * self.dim * self.dim
    }

    /// An output volume of `cascades` slices of `dim` voxels per axis, all `FAR`.
    pub fn new(dim: usize, cascades: usize) -> (r: SdfOutput)
        requires
            1 <= dim <= MAX_SEED_DIM,
        ensures
            r.wf(),
            r.dim_view() == dim,
            r.cascade_count() == cascades,
            forall|c: int, x: int, y: int, z: int|
                0 <= c < cascades && in_volume(dim as int, x, y, z) ==> #[trigger] r.value(c, x, y, z) == FAR,
    {
        proof {
            crate::seeds::lemma_dim_cube(dim as int);
        }
        let total = dim * dim * dim;
        let mut slices: Vec<Vec<u32>> = Vec::new();
        let mut c: usize = 0;
        while c < cascades
            invariant
                c <= cascades,
                total == dim * dim * dim,
                slices@.len() == c,
                forall|k: int| 0 <= k < c ==> (#[trigger] slices@[k])@.len() == total,
                forall|k: int, i: int| 0 <= k < c && 0 <= i < total ==> #[trigger] slices@[k]@[i] == FAR,
            decreases cascades - c,
        {
            let mut slice: Vec<u32> = Vec::new();
            let mut i: usize = 0;
            while i < total
                invariant
                    i <= total,
                    slice@.len() == i,
                    forall|j: int| 0 <= j < i ==> #[trigger] slice@[j] == FAR,
                decreases total - i,
            {
                slice.push(FAR);
                i = i + 1;
            }
            slices.push(slice);
            c = c + 1;
        }
        let r = SdfOutput { dim, slices };
        proof {
            assert forall|c: int, x: int, y: int, z: int|
                0 <= c < cascades && in_volume(dim as int, x, y, z) implies #[trigger] r.value(c, x, y, z) == FAR by {
                crate::seeds::lemma_cell_index(dim as int, x, y, z, x, y, z);
            }
        }
        r
    }

    pub fn dim(&self) -> (r: usize)
        ensures
            r == self.dim_view(),
    {
        self.dim
    }

    pub fn cascades(&self) -> (r: usize)
        ensures
            r == self.cascade_count(),
    {
        self.slices.len()
    }

    /// Voxel `(x, y, z)` of cascade `c`.
    pub fn get(&self, c: usize, x: usize, y: usize, z: usize) -> (r: u32)
        requires
            self.wf(),
            c < self.cascade_count(),
            in_volume(self.dim_view(), x as int, y as int, z as int),
        ensures
            r == self.value(c as int, x as int, y as int, z as int),
    {
        proof {
            crate::seeds::lemma_cell_index(self.dim as int, x as int, y as int, z as int, x as int, y as int, z as int);
            crate::seeds::lemma_dim_cube(self.dim as int);
        }
        self.slices[c][(x * self.dim + y) * self.dim + z]
    }

    /// Voxel `(gx, y, z)` of the one physical volume, cascades side by side.
    pub fn texel(&self, gx: usize, y: usize, z: usize) -> (r: u32)
        requires
            self.wf(),
            gx < self.cascade_count() * self.dim_view(),
            y < self.dim_view() && z < self.dim_view(),
        ensures
            r == self.value(gx as int / self.dim_view(), gx as int % self.dim_view(), y as int, z as int),
    {
        let c = gx / self.dim;
        proof {
            vstd::arithmetic::div_mod::lemma_fundamental_div_mod(gx as int, self.dim as int);
            if c as int >= self.slices@.len() {
                assert(c * self.dim >= self.slices@.len() * self.dim) by (nonlinear_arith)
                    requires
                        c >= self.slices@.len(),
                        self.dim >= 1,
                ;
            }
        }
        self.get(c, gx % self.dim, y, z)
    }

    fn put(&mut self, c: usize, x: usize, y: usize, z: usize, val: u32)
        requires
            old(self).wf(),
            c < old(self).cascade_count(),
            in_volume(old(self).dim_view(), x as int, y as int, z as int),
        ensures
            final(self).wf(),
            final(self).dim_view() == old(self).dim_view(),
            final(self).cascade_count() == old(self).cascade_count(),
            final(self).value(c as int, x as int, y as int, z as int) == val,
            forall|c2: int, a: int, b: int, d: int|
                0 <= c2 < old(self).cascade_count() && in_volume(old(self).dim_view(), a, b, d) && !(c2 == c && a == x
                    && b == y && d == z) ==> #[trigger] final(self).value(c2, a, b, d) == old(self).value(c2, a, b, d),
    {
        proof {
            crate::seeds::lemma_cell_index(self.dim as int, x as int, y as int, z as int, x as int, y as int, z as int);
            crate::seeds::lemma_dim_cube(self.dim as int);
        }
        let i = (x * self.dim + y) * self.dim + z;
        self.slices[c].set(i, val);
        proof {
            assert forall|c2: int, a: int, b: int, d: int|
                0 <= c2 < old(self).cascade_count() && in_volume(old(self).dim_view(), a, b, d) && !(c2 == c && a == x
                    && b == y && d == z) implies #[trigger] self.value(c2, a, b, d) == old(self).value(c2, a, b, d) by {
                crate::seeds::lemma_cell_index(self.dim as int, a, b, d, x as int, y as int, z as int);
            }
        }
    }
}

/// The output value stands for the voxel's nearest seed.
pub open spec fn extracted(v: SeedVolume, s: int, x: int, y: int, z: int, val: u32) -> bool {
    exists|best: Option<int>| voxel_best(v, s, x, y, z, best) && #[trigger] output_value(s, best, val)
}

impl SdfOutput {
    /// Writes the distances of the voxels of `voxels` into cascade
    /// `cascade`'s slice, from a seed volume of `s` cells per voxel axis.
    /// No other voxel of any slice changes.
    pub fn extract_region(&mut self, cascade: usize, v: &SeedVolume, s: usize, voxels: crate::seeds::CellBox)
        requires
            old(self).wf(),
            v.wf(),
            1 <= s <= 4,
            cascade < old(self).cascade_count(),
            v.dim_view() == old(self).dim_view() * s,
            voxels.within(old(self).dim_view()),
        ensures
            final(self).wf(),
            final(self).dim_view() == old(self).dim_view(),
            final(self).cascade_count() == old(self).cascade_count(),
            forall|c: int, x: int, y: int, z: int|
                0 <= c < old(self).cascade_count() && in_volume(old(self).dim_view(), x, y, z) ==> if c == cascade
                    && voxels.contains(x, y, z) {
                    extracted(*v, s as int, x, y, z, #[trigger] final(self).value(c, x, y, z))
                } else {
                    final(self).value(c, x, y, z) == old(self).value(c, x, y, z)
                },
    {
        let ghost d = self.dim_view();
        let ghost n = self.cascade_count();
        let mut x: usize = voxels.lo_x;
        while x < voxels.hi_x
            invariant
                self.wf(),
                v.wf(),
                1 <= s <= 4,
                self.dim_view() == d,
                self.cascade_count() == n,
                d == old(self).dim_view(),
                n == old(self).cascade_count(),
                cascade < n,
                v.dim_view() == d * s,
                voxels.within(d),
                voxels.lo_x <= x <= voxels.hi_x,
                forall|c: int, p: int, q: int, r: int|
                    0 <= c < n && in_volume(d, p, q, r) ==> if c == cascade && voxels.contains(p, q, r) && p < x {
                        extracted(*v, s as int, p, q, r, #[trigger] self.value(c, p, q, r))
                    } else {
                        self.value(c, p, q, r) == old(self).value(c, p, q, r)
                    },
            decreases voxels.hi_x - x,
        {
            let mut y: usize = voxels.lo_y;
            while y < voxels.hi_y
                invariant
                    self.wf(),
                    v.wf(),
                    1 <= s <= 4,
                    self.dim_view() == d,
                    self.cascade_count() == n,
                    d == old(self).dim_view(),
                    n == old(self).cascade_count(),
                    cascade < n,
                    v.dim_view() == d * s,
                    voxels.within(d),
                    voxels.lo_x <= x < voxels.hi_x,
                    voxels.lo_y <= y <= voxels.hi_y,
                    forall|c: int, p: int, q: int, r: int|
                        0 <= c < n && in_volume(d, p, q, r) ==> if c == cascade && voxels.contains(p, q, r) && (p < x || (p
                            == x && q < y)) {
                            extracted(*v, s as int, p, q, r, #[trigger] self.value(c, p, q, r))
                        } else {
                            self.value(c, p, q, r) == old(self).value(c, p, q, r)
                        },
                decreases voxels.hi_y - y,
            {
                let mut z: usize = voxels.lo_z;
                while z < voxels.hi_z
                    invariant
                        self.wf(),
                        v.wf(),
                        1 <= s <= 4,
                        self.dim_view() == d,
                        self.cascade_count() == n,
                        d == old(self).dim_view(),
                        n == old(self).cascade_count(),
                        cascade < n,
                        v.dim_view() == d * s,
                        voxels.within(d),
                        voxels.lo_x <= x < voxels.hi_x,
                        voxels.lo_y <= y < voxels.hi_y,
                        voxels.lo_z <= z <= voxels.hi_z,
                        forall|c: int, p: int, q: int, r: int|
                            0 <= c < n && in_volume(d, p, q, r) ==> if c == cascade && voxels.contains(p, q, r) && (p < x
                                || (p == x && (q < y || (q == y && r < z)))) {
                                extracted(*v, s as int, p, q, r, #[trigger] self.value(c, p, q, r))
                            } else {
                                self.value(c, p, q, r) == old(self).value(c, p, q, r)
                            },
                    decreases voxels.hi_z - z,
                {
                    proof {
                        assert(x * s + s <= d * s && y * s + s <= d * s && z * s + s <= d * s) by (nonlinear_arith)
                            requires
                                x < d && y < d && z < d,
                                s >= 1,
                        ;
                        assert(0 <= x * s && 0 <= y * s && 0 <= z * s) by (nonlinear_arith)
                            requires
                                s >= 1,
                        ;
                    }
                    let val = voxel_value(v, s, x, y, z);
                    self.put(cascade, x, y, z, val);
                    z = z + 1;
                }
                y = y + 1;
            }
            x = x + 1;
        }
    }
}

} // verus!
