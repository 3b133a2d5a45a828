use bevy_scene_sdf::geom::IVec3;
use bevy_scene_sdf::triangle_store::{expand_triangles, MeshEntry, TriangleStore};

fn verts(n: usize, tag: i64) -> Vec<IVec3> {
    (0..n).map(|i| IVec3::new(tag, i as i64, 0)).collect()
}

fn assert_contiguous(store: &TriangleStore) {
    let mut next = 0;
    for e in store.entries().iter() {
        assert_eq!(e.offset, next);
        assert_eq!(e.count % 3, 0);
        next += e.count;
    }
    assert_eq!(next, store.positions().len());
}

#[test]
fn remove_then_add_stays_compacted() {
    let mut store = TriangleStore::new(100);
    assert!(store.add_mesh(1, &verts(6, 1)));
    assert!(store.add_mesh(2, &verts(3, 2)));
    assert!(store.remove_mesh(1));
    assert!(store.add_mesh(3, &verts(9, 3)));
    assert_contiguous(&store);
    assert_eq!(
        store.entries(),
        &vec![
            MeshEntry { mesh_id: 2, offset: 0, count: 3 },
            MeshEntry { mesh_id: 3, offset: 3, count: 9 },
        ]
    );
    assert_eq!(&store.positions()[0..3], &verts(3, 2)[..]);
    assert_eq!(&store.positions()[3..12], &verts(9, 3)[..]);
    assert_eq!(store.triangle_count(), 4);
}

#[test]
fn removing_middle_mesh_shifts_later_ones() {
    let mut store = TriangleStore::new(100);
    store.add_mesh(10, &verts(3, 10));
    store.add_mesh(20, &verts(6, 20));
    store.add_mesh(30, &verts(3, 30));
    assert!(store.remove_mesh(20));
    assert_contiguous(&store);
    assert_eq!(store.mesh_range(30), Some((3, 3)));
    assert_eq!(&store.positions()[3..6], &verts(3, 30)[..]);
    assert!(!store.remove_mesh(20));
    assert_eq!(store.mesh_range(20), None);
}

#[test]
fn duplicate_add_is_refused() {
    let mut store = TriangleStore::new(100);
    assert!(store.add_mesh(7, &verts(3, 7)));
    assert!(!store.add_mesh(7, &verts(6, 8)));
    assert_eq!(store.positions().len(), 3);
}

#[test]
fn capacity_drops_excess_triangles() {
    let mut store = TriangleStore::new(2);
    assert!(store.add_mesh(1, &verts(9, 1)));
    assert_eq!(store.mesh_range(1), Some((0, 6)));
    assert!(store.add_mesh(2, &verts(3, 2)));
    assert_eq!(store.mesh_range(2), Some((6, 0)));
    assert_eq!(store.triangle_count(), 2);
    assert_contiguous(&store);
}

#[test]
fn partial_triangle_is_dropped() {
    let mut store = TriangleStore::new(10);
    store.add_mesh(1, &verts(5, 1));
    assert_eq!(store.mesh_range(1), Some((0, 3)));
}

#[test]
fn update_in_place_needs_same_size() {
    let mut store = TriangleStore::new(10);
    store.add_mesh(1, &verts(3, 1));
    store.add_mesh(2, &verts(3, 2));
    assert!(store.update_mesh(1, &verts(3, 9)));
    assert_eq!(&store.positions()[0..3], &verts(3, 9)[..]);
    assert_eq!(&store.positions()[3..6], &verts(3, 2)[..]);
    assert!(!store.update_mesh(1, &verts(6, 9)));
    assert!(!store.update_mesh(5, &verts(3, 9)));
}

#[test]
fn expand_indexed_and_plain_geometry() {
    let p = vec![IVec3::new(0, 0, 0), IVec3::new(1, 0, 0), IVec3::new(0, 1, 0), IVec3::new(1, 1, 0)];
    let quad = expand_triangles(&p, &Some(vec![0, 1, 2, 2, 1, 3])).unwrap();
    assert_eq!(quad, vec![p[0], p[1], p[2], p[2], p[1], p[3]]);
    assert_eq!(expand_triangles(&p, &None).unwrap(), vec![p[0], p[1], p[2]]);
    assert_eq!(expand_triangles(&p, &Some(vec![0, 1, 4])), None);
    // an index past the positions in a trailing partial triangle is ignored
    assert_eq!(expand_triangles(&p, &Some(vec![0, 1, 2, 9])).unwrap(), vec![p[0], p[1], p[2]]);
}
