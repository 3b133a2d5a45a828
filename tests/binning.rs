use bevy_scene_sdf::coarse::{bin_triangles, BinHeader, BinLimits, Triangle};
use bevy_scene_sdf::extract::{isqrt, SdfOutput, FAR};
use bevy_scene_sdf::fine::{rasterize_tile, touches_cell, CellCoord};
use bevy_scene_sdf::geom::IVec3;
use bevy_scene_sdf::region::TileRegion;
use bevy_scene_sdf::seeds::{jfa_steps, CellBox, SeedVolume};

fn tri(a: (i64, i64, i64), b: (i64, i64, i64), c: (i64, i64, i64)) -> Triangle {
    Triangle { a: IVec3::new(a.0, a.1, a.2), b: IVec3::new(b.0, b.1, b.2), c: IVec3::new(c.0, c.1, c.2) }
}

fn header(region: TileRegion) -> BinHeader {
    BinHeader { origin: IVec3::new(0, 0, 0), tile_size: 16, region }
}

fn full() -> TileRegion {
    TileRegion::full()
}

fn tile(x: usize, y: usize, z: usize) -> usize {
    (x * 16 + y) * 16 + z
}

#[test]
fn overflow_goes_to_virtual_tile_and_both_blend() {
    let tris = vec![tri((1, 1, 1), (5, 1, 1), (1, 5, 1)), tri((2, 2, 10), (6, 2, 10), (2, 6, 10))];
    let h = header(full());
    let bins = bin_triangles(&tris, &h, BinLimits { ids_per_tile: 1, virtual_tiles: 1 });
    assert_eq!(bins.tile_ids(0), vec![0, 1]);
    assert_eq!(bins.list_count(0), 2);
    assert_eq!(bins.virtual_used(), 1);
    let occupied = bins.occupied_tiles();
    assert_eq!(occupied.len(), 2);
    assert_eq!((occupied[0].tile, occupied[0].ids.clone()), (0, vec![0]));
    assert_eq!((occupied[1].tile, occupied[1].ids.clone()), (0, vec![1]));

    let n = 4;
    let rasterized: Vec<_> = occupied.iter().map(|t| rasterize_tile(t, &tris, &h, n)).collect();
    let mut seeds = SeedVolume::new(16 * n);
    let region = TileRegion { lo_x: 0, lo_y: 0, lo_z: 0, hi_x: 1, hi_y: 1, hi_z: 1 };
    seeds.seed_tiles(region, n, &rasterized);
    // the first triangle lies in the plane z = 1, the second in z = 10
    assert_eq!(seeds.get(0, 0, 0), Some(IVec3::new(0, 0, 0)));
    assert_eq!(seeds.get(1, 1, 0), Some(IVec3::new(1, 1, 0)));
    assert_eq!(seeds.get(0, 0, 2), Some(IVec3::new(0, 0, 2)));
    assert_eq!(seeds.get(0, 0, 1), None);
    assert_eq!(seeds.get(2, 0, 0), None);
}

#[test]
fn exhausted_budget_drops_ids() {
    let tris = vec![
        tri((1, 1, 1), (5, 1, 1), (1, 5, 1)),
        tri((2, 2, 2), (6, 2, 2), (2, 6, 2)),
        tri((3, 3, 3), (7, 3, 3), (3, 7, 3)),
    ];
    let bins = bin_triangles(&tris, &header(full()), BinLimits { ids_per_tile: 1, virtual_tiles: 1 });
    assert_eq!(bins.tile_ids(0), vec![0, 1]);
    assert_eq!(bins.virtual_used(), 1);
    let none = bin_triangles(&tris, &header(full()), BinLimits { ids_per_tile: 2, virtual_tiles: 0 });
    assert_eq!(none.tile_ids(0), vec![0, 1]);
    assert_eq!(none.list_count(0), 1);
}

#[test]
fn large_triangle_covers_every_tile_it_meets() {
    // bounding box x in [10, 40], y in [0, 20], z = 5: tiles x 0..=2, y 0..=1, z 0
    let tris = vec![tri((10, 0, 5), (40, 0, 5), (10, 20, 5))];
    let bins = bin_triangles(&tris, &header(full()), BinLimits { ids_per_tile: 4, virtual_tiles: 0 });
    for x in 0..16 {
        for y in 0..16 {
            for z in 0..16 {
                let expect = if x <= 2 && y <= 1 && z == 0 { vec![0] } else { vec![] };
                assert_eq!(bins.tile_ids(tile(x, y, z)), expect, "tile {} {} {}", x, y, z);
            }
        }
    }
    assert_eq!(bins.occupied_tiles().len(), 6);
}

#[test]
fn tile_boundary_is_half_open() {
    // x = 16 is the first coordinate of tile 1
    let tris = vec![tri((16, 0, 0), (16, 1, 0), (16, 0, 1))];
    let bins = bin_triangles(&tris, &header(full()), BinLimits { ids_per_tile: 4, virtual_tiles: 0 });
    assert_eq!(bins.tile_ids(tile(0, 0, 0)), Vec::<usize>::new());
    assert_eq!(bins.tile_ids(tile(1, 0, 0)), vec![0]);
    let left = vec![tri((15, 0, 0), (15, 1, 0), (15, 0, 1))];
    let bins = bin_triangles(&left, &header(full()), BinLimits { ids_per_tile: 4, virtual_tiles: 0 });
    assert_eq!(bins.tile_ids(tile(0, 0, 0)), vec![0]);
}

#[test]
fn binning_stays_inside_region_and_window() {
    let tris = vec![tri((-100, 0, 0), (1000, 0, 0), (0, 1, 0))];
    let region = TileRegion { lo_x: 13, lo_y: 0, lo_z: 0, hi_x: 16, hi_y: 16, hi_z: 16 };
    let bins = bin_triangles(&tris, &header(region), BinLimits { ids_per_tile: 4, virtual_tiles: 0 });
    let occupied = bins.occupied_tiles();
    let tiles: Vec<usize> = occupied.iter().map(|t| t.tile).collect();
    assert_eq!(tiles, vec![tile(13, 0, 0), tile(14, 0, 0), tile(15, 0, 0)]);
}

#[test]
fn negative_window_origin() {
    let h = BinHeader { origin: IVec3::new(-8, -8, -8), tile_size: 384, region: full() };
    // world (0, 0, 0) lies in tile (8, 8, 8) of a window centred on the origin
    let tris = vec![tri((1, 1, 1), (2, 1, 1), (1, 2, 1))];
    let bins = bin_triangles(&tris, &h, BinLimits { ids_per_tile: 4, virtual_tiles: 0 });
    assert_eq!(bins.tile_ids(tile(8, 8, 8)), vec![0]);
    assert_eq!(bins.occupied_tiles().len(), 1);
}

#[test]
fn touch_test_needs_the_plane() {
    let h = header(full());
    // a slanted triangle: plane x + y = 8 within tile 0, cells of 4 units
    let t = tri((8, 0, 0), (0, 8, 0), (0, 8, 8));
    assert!(touches_cell(&t, &h, 4, 0, CellCoord { x: 1, y: 0, z: 0 }));
    assert!(touches_cell(&t, &h, 4, 0, CellCoord { x: 0, y: 1, z: 0 }));
    // corners of cell (0,0,0) have x + y <= 8: the corner (4, 4) lies on the plane
    assert!(touches_cell(&t, &h, 4, 0, CellCoord { x: 0, y: 0, z: 0 }));
    // a cell inside the bounding box but away from the plane
    let far = tri((0, 0, 0), (8, 0, 0), (0, 8, 8));
    assert!(!touches_cell(&far, &h, 8, 0, CellCoord { x: 7, y: 0, z: 0 }));
    // outside the fine range the triangle is skipped
    let huge = tri((0, 0, 0), (1 << 40, 0, 0), (0, 1, 0));
    assert!(!touches_cell(&huge, &h, 4, 0, CellCoord { x: 0, y: 0, z: 0 }));
}

#[test]
fn rasterized_cells_are_ordered_and_exact() {
    let tris = vec![tri((1, 1, 1), (5, 1, 1), (1, 5, 1))];
    let bins = bin_triangles(&tris, &header(full()), BinLimits { ids_per_tile: 4, virtual_tiles: 0 });
    let occupied = bins.occupied_tiles();
    let cells = rasterize_tile(&occupied[0], &tris, &header(full()), 4);
    let got: Vec<(usize, usize, usize)> = cells.cells.iter().map(|c| (c.x, c.y, c.z)).collect();
    assert_eq!(got, vec![(0, 0, 0), (0, 1, 0), (1, 0, 0), (1, 1, 0)]);
}

#[test]
fn jump_flood_finds_single_seed() {
    let mut v = SeedVolume::new(8);
    v.set(0, 0, 0, Some(IVec3::new(0, 0, 0)));
    let all = CellBox { lo_x: 0, lo_y: 0, lo_z: 0, hi_x: 8, hi_y: 8, hi_z: 8 };
    let steps = jfa_steps(8);
    assert_eq!(steps, vec![4, 2, 1]);
    let w = v.propagate(all, &steps);
    for x in 0..8 {
        for y in 0..8 {
            for z in 0..8 {
                assert_eq!(w.get(x, y, z), Some(IVec3::new(0, 0, 0)));
            }
        }
    }
}

#[test]
fn jump_flood_pass_keeps_nearest_and_never_worsens() {
    let mut v = SeedVolume::new(8);
    v.set(0, 0, 0, Some(IVec3::new(0, 0, 0)));
    v.set(7, 7, 7, Some(IVec3::new(7, 7, 7)));
    v.set(6, 6, 6, Some(IVec3::new(0, 0, 0)));
    let all = CellBox { lo_x: 0, lo_y: 0, lo_z: 0, hi_x: 8, hi_y: 8, hi_z: 8 };
    let w = v.jfa_pass(1, all);
    // (6,6,6) sees (7,7,7)'s seed one step away, far nearer than its own
    assert_eq!(w.get(6, 6, 6), Some(IVec3::new(7, 7, 7)));
    assert_eq!(w.get(1, 1, 1), Some(IVec3::new(0, 0, 0)));
    assert_eq!(w.get(3, 3, 3), None);
    let d2 = |p: (i64, i64, i64), s: Option<IVec3>| s.map(|s| (s.x - p.0).pow(2) + (s.y - p.1).pow(2) + (s.z - p.2).pow(2));
    for x in 0..8usize {
        for y in 0..8usize {
            for z in 0..8usize {
                let p = (x as i64, y as i64, z as i64);
                if let Some(before) = d2(p, v.get(x, y, z)) {
                    assert!(d2(p, w.get(x, y, z)).unwrap() <= before);
                }
            }
        }
    }
}

#[test]
fn pass_outside_region_changes_nothing() {
    let mut v = SeedVolume::new(4);
    v.set(0, 0, 0, Some(IVec3::new(0, 0, 0)));
    let part = CellBox { lo_x: 2, lo_y: 0, lo_z: 0, hi_x: 4, hi_y: 4, hi_z: 4 };
    let w = v.jfa_pass(1, part);
    assert_eq!(w.get(1, 0, 0), None);
    assert_eq!(w.get(0, 0, 0), Some(IVec3::new(0, 0, 0)));
}

#[test]
fn step_schedule() {
    assert_eq!(jfa_steps(512), vec![256, 128, 64, 32, 16, 8, 4, 2, 1]);
    assert_eq!(jfa_steps(100), vec![64, 32, 16, 8, 4, 2, 1]);
    assert_eq!(jfa_steps(1), vec![1]);
    assert_eq!(jfa_steps(0), vec![1]);
}

#[test]
fn extracted_distances() {
    let mut v = SeedVolume::new(8);
    v.set(0, 0, 0, Some(IVec3::new(0, 0, 0)));
    let all = CellBox { lo_x: 0, lo_y: 0, lo_z: 0, hi_x: 8, hi_y: 8, hi_z: 8 };
    let w = v.propagate(all, &jfa_steps(8));
    let mut out = SdfOutput::new(2, 2);
    let voxels = CellBox { lo_x: 0, lo_y: 0, lo_z: 0, hi_x: 2, hi_y: 2, hi_z: 2 };
    out.extract_region(1, &w, 4, voxels);
    // voxel centre at cell 2 (doubled: 4), seed cell centre doubled 1: sqrt(27) / 8 voxel
    assert_eq!(out.get(1, 0, 0, 0), 166);
    assert_eq!(out.get(1, 1, 1, 1), 609);
    assert_eq!(out.get(0, 0, 0, 0), FAR);
    assert_eq!(out.texel(2, 0, 0), 166);
    assert_eq!(out.texel(3, 1, 1), 609);
    let empty = SeedVolume::new(8);
    let mut out2 = SdfOutput::new(2, 1);
    out2.extract_region(0, &empty, 4, voxels);
    assert_eq!(out2.get(0, 1, 0, 1), FAR);
}

#[test]
fn integer_square_root() {
    assert_eq!(isqrt(0), 0);
    assert_eq!(isqrt(27648), 166);
    assert_eq!(isqrt(1 << 40), 1 << 20);
    assert_eq!(isqrt((1 << 40) - 1), (1 << 20) - 1);
}

#[test]
fn stitch_pass_reaches_across_tile_boundary() {
    // two tiles of 4 cells along x; the only seed sits in the first tile
    let mut v = SeedVolume::new(8);
    v.set(3, 2, 2, Some(IVec3::new(3, 2, 2)));
    let second_tile = CellBox { lo_x: 4, lo_y: 0, lo_z: 0, hi_x: 8, hi_y: 8, hi_z: 8 };
    let w = v.jfa_pass(1, second_tile);
    assert_eq!(w.get(4, 2, 2), Some(IVec3::new(3, 2, 2)));
    assert_eq!(w.get(4, 3, 3), Some(IVec3::new(3, 2, 2)));
    assert_eq!(w.get(5, 2, 2), None);
}
