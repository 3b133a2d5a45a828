use bevy_scene_sdf::culler::{cull, is_visible, meets_box, Obb};
use bevy_scene_sdf::geom::IVec3;
use bevy_scene_sdf::region::ClipBox;

fn unit_box(cx: i64, cy: i64, cz: i64, half: i64) -> Obb {
    Obb {
        center: IVec3::new(cx, cy, cz),
        half_x: IVec3::new(half, 0, 0),
        half_y: IVec3::new(0, half, 0),
        half_z: IVec3::new(0, 0, half),
    }
}

fn clip(min: i128, max: i128) -> ClipBox {
    ClipBox { min_x: min, min_y: min, min_z: min, max_x: max, max_y: max, max_z: max }
}

#[test]
fn box_inside_and_outside() {
    let c = clip(0, 100);
    assert!(meets_box(&unit_box(50, 50, 50, 10), &c));
    assert!(meets_box(&unit_box(110, 50, 50, 10), &c));
    assert!(!meets_box(&unit_box(111, 50, 50, 10), &c));
    assert!(!meets_box(&unit_box(50, -20, 50, 10), &c));
}

#[test]
fn rotated_box_uses_projected_radius() {
    // half-axes along the diagonals: projected radius 20 on x
    let b = Obb {
        center: IVec3::new(118, 50, 50),
        half_x: IVec3::new(10, 10, 0),
        half_y: IVec3::new(-10, 10, 0),
        half_z: IVec3::new(0, 0, 5),
    };
    assert!(meets_box(&b, &clip(0, 100)));
    let moved = Obb { center: IVec3::new(121, 50, 50), ..b };
    assert!(!meets_box(&moved, &clip(0, 100)));
}

#[test]
fn visible_set_is_union_over_boxes() {
    let objects = vec![unit_box(50, 50, 50, 5), unit_box(500, 500, 500, 5), unit_box(1050, 1050, 1050, 5)];
    let boxes = vec![clip(0, 100), clip(1000, 1100)];
    assert_eq!(cull(&objects, &boxes), vec![0, 2]);
    assert!(!is_visible(&objects[1], &boxes));
}

#[test]
fn no_boxes_no_visible_objects() {
    let objects = vec![unit_box(0, 0, 0, 1000)];
    assert_eq!(cull(&objects, &Vec::new()).len(), 0);
}
