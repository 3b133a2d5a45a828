//! Visibility culling of scene objects against the redraw clip boxes.

use vstd::prelude::*;
use crate::geom::IVec3;
use crate::region::ClipBox;
use crate::scheduler::abs;

verus! {

/// An object's oriented bounding box in world space (fixed-point units): its
/// centre and its three half-axis vectors.
#[derive(Clone, Copy, Debug, PartialEq, Eq, Structural)]
pub struct Obb {
    pub center: IVec3,
    pub half_x: IVec3,
    pub half_y: IVec3,
    pub half_z: IVec3,
}

/// Half the box's extent along the world axis `axis`: the projection of its
/// half-axes onto that axis.
pub open spec fn projected_radius(b: Obb, axis: int) -> int {
    abs(b.half_x.at(axis)) + abs(b.half_y.at(axis)) + abs(b.half_z.at(axis))
}

/// No face plane of `c` excludes `b`: along each axis, the projected interval
/// of `b` meets that of the clip box.
pub open spec fn obb_meets_box(b: Obb, c: ClipBox) -> bool {
    forall|axis: int|
        0 <= axis < 3 ==> {
            &&& #[trigger] b.center.at(axis) - projected_radius(b, axis) <= c.max(axis)
            &&& b.center.at(axis) + projected_radius(b, axis) >= c.min(axis)
        }
}

/// `b` meets at least one of the clip boxes.
pub open spec fn obb_visible(b: Obb, boxes: Seq<ClipBox>) -> bool {
    exists|i: int| 0 <= i < boxes.len() && obb_meets_box(b, #[trigger] boxes[i])
}

fn abs_wide(v: i64) -> (r: i128)
    ensures
        r as int == abs(v as int),
{
    let w = v as i128;
    if w < 0 {
        -w
    } else {
        w
    }
}

fn radius(b: &Obb, axis: usize) -> (r: i128)
    requires
        axis < 3,
    ensures
        r as int == projected_radius(*b, axis as int),
{
    abs_wide(b.half_x.get(axis)) + abs_wide(b.half_y.get(axis)) + abs_wide(b.half_z.get(axis))
}

fn box_min(c: &ClipBox, axis: usize) -> (r: i128)
    requires
        axis < 3,
    ensures
        r as int == c.min(axis as int),
{
    if axis == 0 {
        c.min_x
    } else if axis == 1 {
        c.min_y
    } else {
        c.min_z
    }
}

fn box_max(c: &ClipBox, axis: usize) -> (r: i128)
    requires
        axis < 3,
    ensures
        r as int == c.max(axis as int),
{
    if axis == 0 {
        c.max_x
    } else if axis == 1 {
        c.max_y
    } else {
        c.max_z
    }
}

/// The separating-axis test of an oriented box against a clip box, over the
/// clip box's face normals.
pub fn meets_box(b: &Obb, c: &ClipBox) -> (r: bool)
    ensures
        r == obb_meets_box(*b, *c),
{
    let mut axis: usize = 0;
    while axis < 3
        invariant
            axis <= 3,
            forall|a: int|
                0 <= a < axis ==> {
                    &&& #[trigger] b.center.at(a) - projected_radius(*b, a) <= c.max(a)
                    &&& b.center.at(a) + projected_radius(*b, a) >= c.min(a)
                },
        decreases 3 - axis,
    {
        let centre = b.center.get(axis) as i128;
        let rad = radius(b, axis);
        if centre - rad > box_max(c, axis) || centre + rad < box_min(c, axis) {
            return false;
        }
        axis = axis + 1;
    }
    true
}

/// Whether `b` meets any of the clip boxes.
pub fn is_visible(b: &Obb, boxes: &Vec<ClipBox>) -> (r: bool)
    ensures
        r == obb_visible(*b, boxes@),
{
    let mut i: usize = 0;
    while i < boxes.len()
        invariant
            i <= boxes@.len(),
            forall|j: int| 0 <= j < i ==> !obb_meets_box(*b, #[trigger] boxes@[j]),
        decreases boxes@.len() - i,
    {
        if meets_box(b, &boxes[i]) {
            return true;
        }
        i = i + 1;
    }
    false
}

/// The indices of the objects that meet any clip box, in increasing order.
/// With no clip boxes (the cascade is not updating) the set is empty.
pub fn cull(objects: &Vec<Obb>, boxes: &Vec<ClipBox>) -> (r: Vec<usize>)
    ensures
        forall|i: int, j: int| 0 <= i < j < r@.len() ==> r@[i] < r@[j],
        forall|i: int| 0 <= i < r@.len() ==> (#[trigger] r@[i]) < objects@.len(),
        forall|k: int|
            0 <= k < objects@.len() ==> (r@.contains(k as usize) <==> obb_visible(
                #[trigger] objects@[k],
                boxes@,
            )),
{
    let mut r: Vec<usize> = Vec::new();
    let mut k: usize = 0;
    while k < objects.len()
        invariant
            k <= objects@.len(),
            forall|i: int, j: int| 0 <= i < j < r@.len() ==> r@[i] < r@[j],
            forall|i: int| 0 <= i < r@.len() ==> (#[trigger] r@[i]) < k,
            forall|m: int|
                0 <= m < k ==> (r@.contains(m as usize) <==> obb_visible(#[trigger] objects@[m], boxes@)),
        decreases objects@.len() - k,
    {
        let ghost before = r@;
        let vis = is_visible(&objects[k], boxes);
        if vis {
            r.push(k);
        }
        assert forall|m: int|
            0 <= m < k + 1 implies (r@.contains(m as usize) <==> obb_visible(#[trigger] objects@[m], boxes@)) by {
            if r@.contains(m as usize) {
                let w = choose|w: int| 0 <= w < r@.len() && r@[w] == m as usize;
                if w < before.len() {
                    assert(before[w] == r@[w]);
                    assert(before.contains(m as usize));
                }
            }
            if m < k && before.contains(m as usize) {
                let w = choose|w: int| 0 <= w < before.len() && before[w] == m as usize;
                assert(r@[w] == m as usize);
            }
            if m == k && vis {
                assert(r@[before.len() as int] == k);
            }
        }
        k = k + 1;
    }
    r
}

} // verus!
