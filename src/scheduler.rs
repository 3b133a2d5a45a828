//! The cascade scheduler: which cascade refreshes on a frame, how far its
//! window scrolls, and which slab of the window must be redrawn.

use vstd::prelude::*;
use crate::geom::{IVec3, floor_div};
use crate::settings::{CascadeSettings, CascadeUpdateSchedule, TILE_DIM_COUNT, tile_size_of};

verus! {

/// Runtime state of one cascade.
///
/// `last_origin` is the tile-space corner of the cascade's window (`None`
/// before its first update); `redraw` is the signed per-axis tile count
/// scrolled by the current frame's update, the zero vector when the cascade
/// does no work this frame.
#[derive(Clone, Copy, Debug, PartialEq, Eq, Structural)]
pub struct CascadeState {
    pub last_origin: Option<IVec3>,
    pub redraw: IVec3,
}

/// What the pipeline runs for the one cascade refreshed on a frame.
#[derive(Clone, Copy, Debug, PartialEq, Eq, Structural)]
pub struct CascadeUpdate {
    pub index: usize,
    /// The window's tile-space corner after the update.
    pub origin: IVec3,
    pub redraw: IVec3,
    pub tile_size: i64,
}

pub open spec fn zero_vec() -> IVec3 {
    IVec3 { x: 0, y: 0, z: 0 }
}

pub open spec fn is_zero_vec(v: IVec3) -> bool {
    v.x == 0 && v.y == 0 && v.z == 0
}

pub open spec fn abs(v: int) -> int {
    if v < 0 {
        -v
    } else {
        v
    }
}

pub open spec fn is_scheduled(s: CascadeUpdateSchedule, frame: int) -> bool {
    frame % (s.frequency as int) == s.offset as int
}

/// The first cascade at or after `i` whose schedule matches `frame`.
pub open spec fn first_scheduled_from(cs: Seq<CascadeSettings>, frame: int, i: int) -> Option<int>
    decreases cs.len() - i,
{
    if i < 0 || i >= cs.len() {
        None
    } else if is_scheduled(cs[i].update_schedule, frame) {
        Some(i)
    } else {
        first_scheduled_from(cs, frame, i + 1)
    }
}

/// The cascade refreshed on `frame`: the finest one whose schedule matches.
pub open spec fn first_scheduled(cs: Seq<CascadeSettings>, frame: int) -> Option<int> {
    first_scheduled_from(cs, frame, 0)
}

/// The cascade found by the search is one whose schedule matches, and every
/// earlier one from the start of the search does not match.
pub proof fn lemma_first_scheduled_from(cs: Seq<CascadeSettings>, frame: int, k: int)
    requires
        0 <= k,
    ensures
        first_scheduled_from(cs, frame, k) matches Some(i) ==> {
            &&& k <= i < cs.len()
            &&& is_scheduled(cs[i].update_schedule, frame)
            &&& forall|j: int| k <= j < i ==> !is_scheduled(#[trigger] cs[j].update_schedule, frame)
        },
        first_scheduled_from(cs, frame, k) is None ==> forall|j: int|
            k <= j < cs.len() ==> !is_scheduled(#[trigger] cs[j].update_schedule, frame),
    decreases cs.len() - k,
{
    if k < cs.len() && !is_scheduled(cs[k].update_schedule, frame) {
        lemma_first_scheduled_from(cs, frame, k + 1);
    }
}

pub open spec fn all_valid(cs: Seq<CascadeSettings>) -> bool {
    forall|i: int| 0 <= i < cs.len() ==> (#[trigger] cs[i]).valid()
}

/// Tile-space window corner along one axis: the viewer's tile less half a window.
pub open spec fn axis_origin(c: int, tile_size: int) -> int {
    c / tile_size - (TILE_DIM_COUNT as int) / 2
}

/// The window corner lies in the `i64` range on every axis.
pub open spec fn origin_in_range(centre: IVec3, tile_size: int) -> bool {
    &&& axis_origin(centre.x as int, tile_size) >= i64::MIN
    &&& axis_origin(centre.y as int, tile_size) >= i64::MIN
    &&& axis_origin(centre.z as int, tile_size) >= i64::MIN
}

pub open spec fn tile_origin_spec(centre: IVec3, tile_size: int) -> IVec3 {
    IVec3 {
        x: axis_origin(centre.x as int, tile_size) as i64,
        y: axis_origin(centre.y as int, tile_size) as i64,
        z: axis_origin(centre.z as int, tile_size) as i64,
    }
}

/// `v` clamped to one window width either way.
pub open spec fn clamp_tiles(v: int) -> int {
    let n = TILE_DIM_COUNT as int;
    if v > n {
        n
    } else if v < -n {
        -n
    } else {
        v
    }
}

/// The scroll from `last` to `origin`, clamped per axis to one window width.
pub open spec fn clamped_delta(origin: IVec3, last: IVec3) -> IVec3 {
    IVec3 {
        x: clamp_tiles(origin.x - last.x) as i64,
        y: clamp_tiles(origin.y - last.y) as i64,
        z: clamp_tiles(origin.z - last.z) as i64,
    }
}

/// The axis of greatest magnitude; ties go to the earlier axis.
pub open spec fn dominant_axis(d: IVec3) -> int {
    if abs(d.x as int) >= abs(d.y as int) && abs(d.x as int) >= abs(d.z as int) {
        0
    } else if abs(d.y as int) >= abs(d.z as int) {
        1
    } else {
        2
    }
}

/// `v` with the component along `axis` replaced by `value`.
pub open spec fn with_axis(v: IVec3, axis: int, value: i64) -> IVec3 {
    if axis == 0 {
        IVec3 { x: value, ..v }
    } else if axis == 1 {
        IVec3 { y: value, ..v }
    } else {
        IVec3 { z: value, ..v }
    }
}

/// `v` with every component but the one along `axis` zeroed.
pub open spec fn only_axis(v: IVec3, axis: int) -> IVec3 {
    with_axis(zero_vec(), axis, v.at(axis) as i64)
}

/// The state of a scheduled cascade after its update towards `origin`.
pub open spec fn next_state(s: CascadeState, origin: IVec3) -> CascadeState {
    match s.last_origin {
        None => CascadeState {
            last_origin: Some(origin),
            redraw: IVec3 { x: TILE_DIM_COUNT as i64, y: 0, z: 0 },
        },
        Some(last) => {
            let d = clamped_delta(origin, last);
            if is_zero_vec(d) {
                CascadeState { last_origin: Some(last), redraw: zero_vec() }
            } else {
                let a = dominant_axis(d);
                CascadeState {
                    last_origin: Some(with_axis(last, a, origin.at(a) as i64)),
                    redraw: only_axis(d, a),
                }
            }
        },
    }
}

/// The state of a cascade that does no work this frame.
pub open spec fn idle_state(s: CascadeState) -> CascadeState {
    CascadeState { redraw: zero_vec(), ..s }
}

/// The cascade states after a frame, and the update the pipeline runs.
pub open spec fn frame_states(
    states: Seq<CascadeState>,
    cs: Seq<CascadeSettings>,
    frame: int,
    centre: IVec3,
) -> Seq<CascadeState> {
    match first_scheduled(cs, frame) {
        None => states.map_values(|s: CascadeState| idle_state(s)),
        Some(i) => {
            let ts = tile_size_of(cs[i].far_distance as int);
            let ns = next_state(states[i], tile_origin_spec(centre, ts));
            states.map_values(|s: CascadeState| idle_state(s)).update(i, ns)
        },
    }
}

pub open spec fn frame_update(
    states: Seq<CascadeState>,
    cs: Seq<CascadeSettings>,
    frame: int,
    centre: IVec3,
) -> Option<CascadeUpdate> {
    match first_scheduled(cs, frame) {
        None => None,
        Some(i) => {
            let ts = tile_size_of(cs[i].far_distance as int);
            let ns = next_state(states[i], tile_origin_spec(centre, ts));
            if is_zero_vec(ns.redraw) {
                None
            } else {
                Some(
                    CascadeUpdate {
                        index: i as usize,
                        origin: ns.last_origin.unwrap(),
                        redraw: ns.redraw,
                        tile_size: ts as i64,
                    },
                )
            }
        },
    }
}

/// The frame's centre gives every cascade a window corner within range.
pub open spec fn centre_in_range(cs: Seq<CascadeSettings>, centre: IVec3) -> bool {
    forall|i: int|
        0 <= i < cs.len() ==> origin_in_range(centre, tile_size_of(#[trigger] cs[i].far_distance as int))
}

impl CascadeState {
    /// A cascade that has never been drawn.
    pub fn new() -> (r: CascadeState)
        ensures
            r.last_origin.is_none(),
            is_zero_vec(r.redraw),
    {
        CascadeState { last_origin: None, redraw: IVec3::zero() }
    }
}

/// Fresh states for `n` cascades: used on start-up and whenever the cascade
/// settings or the triangle store change shape, to force a full redraw.
pub fn reset_states(n: usize) -> (r: Vec<CascadeState>)
    ensures
        r@.len() == n,
        forall|i: int| 0 <= i < n ==> (#[trigger] r@[i]).last_origin.is_none() && is_zero_vec(r@[i].redraw),
{
    let mut r: Vec<CascadeState> = Vec::new();
    let mut i: usize = 0;
    while i < n
        invariant
            i <= n,
            r@.len() == i,
            forall|j: int| 0 <= j < i ==> (#[trigger] r@[j]).last_origin.is_none() && is_zero_vec(r@[j].redraw),
        decreases n - i,
    {
        r.push(CascadeState::new());
        i = i + 1;
    }
    r
}

/// Whether `schedule` matches `frame`.
pub fn cascade_is_scheduled(schedule: &CascadeUpdateSchedule, frame: u32) -> (r: bool)
    requires
        schedule.frequency > 0,
    ensures
        r == is_scheduled(*schedule, frame as int),
{
    frame % schedule.frequency == schedule.offset
}

/// The cascade to refresh on `frame`: the first, in order, whose schedule
/// matches. At most one cascade updates per frame.
pub fn select_cascade(cascades: &Vec<CascadeSettings>, frame: u32) -> (r: Option<usize>)
    requires
        all_valid(cascades@),
    ensures
        r matches Some(i) ==> first_scheduled(cascades@, frame as int) == Some(i as int),
        r is None ==> first_scheduled(cascades@, frame as int) is None,
{
    let mut i: usize = 0;
    while i < cascades.len()
        invariant
            i <= cascades@.len(),
            all_valid(cascades@),
            first_scheduled(cascades@, frame as int) == first_scheduled_from(cascades@, frame as int, i as int),
        decreases cascades@.len() - i,
    {
        assert(cascades@[i as int].valid());
        if cascade_is_scheduled(&cascades[i].update_schedule, frame) {
            return Some(i);
        }
        i = i + 1;
    }
    None
}

/// Whether `centre` gives a window corner within range for this tile size.
pub fn centre_fits(centre: IVec3, tile_size: i64) -> (r: bool)
    requires
        tile_size > 0,
    ensures
        r == origin_in_range(centre, tile_size as int),
{
    let half = (TILE_DIM_COUNT / 2) as i64;
    floor_div(centre.x, tile_size) >= i64::MIN + half
        && floor_div(centre.y, tile_size) >= i64::MIN + half
        && floor_div(centre.z, tile_size) >= i64::MIN + half
}

/// The tile-space corner of a window centred on `centre`:
/// `floor(centre / tile_size) - TILE_DIM_COUNT / 2` on each axis.
pub fn tile_origin(centre: IVec3, tile_size: i64) -> (r: IVec3)
    requires
        tile_size > 0,
        origin_in_range(centre, tile_size as int),
    ensures
        r == tile_origin_spec(centre, tile_size as int),
{
    let half = (TILE_DIM_COUNT / 2) as i64;
    IVec3 {
        x: floor_div(centre.x, tile_size) - half,
        y: floor_div(centre.y, tile_size) - half,
        z: floor_div(centre.z, tile_size) - half,
    }
}

fn clamp_axis(origin: i64, last: i64) -> (r: i64)
    ensures
        r as int == clamp_tiles(origin - last),
{
    let n = TILE_DIM_COUNT as i128;
    let d = origin as i128 - last as i128;
    if d > n {
        n as i64
    } else if d < -n {
        (-n) as i64
    } else {
        d as i64
    }
}

fn abs_small(v: i64) -> (r: i64)
    requires
        -(TILE_DIM_COUNT as int) <= v <= TILE_DIM_COUNT as int,
    ensures
        r as int == abs(v as int),
{
    if v < 0 {
        -v
    } else {
        v
    }
}

/// The axis along which a scroll is greatest (ties go to x, then y).
pub fn pick_dominant_axis(d: &IVec3) -> (r: usize)
    requires
        -(TILE_DIM_COUNT as int) <= d.x <= TILE_DIM_COUNT as int,
        -(TILE_DIM_COUNT as int) <= d.y <= TILE_DIM_COUNT as int,
        -(TILE_DIM_COUNT as int) <= d.z <= TILE_DIM_COUNT as int,
    ensures
        r as int == dominant_axis(*d),
        r < 3,
{
    let ax = abs_small(d.x);
    let ay = abs_small(d.y);
    let az = abs_small(d.z);
    if ax >= ay && ax >= az {
        0
    } else if ay >= az {
        1
    } else {
        2
    }
}

fn set_axis(v: &IVec3, axis: usize, value: i64) -> (r: IVec3)
    requires
        axis < 3,
    ensures
        r == with_axis(*v, axis as int, value),
{
    if axis == 0 {
        IVec3 { x: value, ..*v }
    } else if axis == 1 {
        IVec3 { y: value, ..*v }
    } else {
        IVec3 { z: value, ..*v }
    }
}

/// Moves a scheduled cascade's window towards `origin`.
///
/// A cascade never drawn redraws its full window along x. Otherwise the scroll
/// is clamped to one window width per axis; a zero scroll changes nothing, and
/// any other is restricted to its dominant axis, along which alone the window
/// corner advances. Returns whether the cascade has anything to redraw.
pub fn advance_cascade(state: &mut CascadeState, origin: IVec3) -> (updated: bool)
    ensures
        *final(state) == next_state(*old(state), origin),
        updated == !is_zero_vec(final(state).redraw),
{
    match state.last_origin {
        None => {
            state.last_origin = Some(origin);
            state.redraw = IVec3 { x: TILE_DIM_COUNT as i64, y: 0, z: 0 };
            true
        },
        Some(last) => {
            let d = IVec3 {
                x: clamp_axis(origin.x, last.x),
                y: clamp_axis(origin.y, last.y),
                z: clamp_axis(origin.z, last.z),
            };
            assert(d == clamped_delta(origin, last));
            if d.is_zero() {
                state.redraw = IVec3::zero();
                false
            } else {
                let a = pick_dominant_axis(&d);
                state.last_origin = Some(set_axis(&last, a, origin.get(a)));
                state.redraw = set_axis(&IVec3::zero(), a, d.get(a));
                assert(!is_zero_vec(state.redraw)) by {
                    if a == 0 {
                        assert(d.x != 0);
                    } else if a == 1 {
                        assert(d.y != 0);
                    } else {
                        assert(d.z != 0);
                    }
                }
                true
            }
        },
    }
}

/// Runs the scheduler for one frame.
///
/// The first cascade whose schedule matches `frame` moves its window towards
/// the tile holding `centre`; every other cascade gets a zero redraw. Returns
/// the update for the pipeline, or `None` when no cascade has work this frame.
pub fn schedule_frame(
    states: &mut Vec<CascadeState>,
    cascades: &Vec<CascadeSettings>,
    frame: u32,
    centre: IVec3,
) -> (r: Option<CascadeUpdate>)
    requires
        old(states)@.len() == cascades@.len(),
        all_valid(cascades@),
        centre_in_range(cascades@, centre),
    ensures
        final(states)@ == frame_states(old(states)@, cascades@, frame as int, centre),
        r == frame_update(old(states)@, cascades@, frame as int, centre),
{
    let ghost start = states@;
    let n = states.len();
    let mut i: usize = 0;
    while i < n
        invariant
            n == states@.len(),
            n == start.len(),
            i <= n,
            forall|j: int| 0 <= j < i ==> #[trigger] states@[j] == idle_state(start[j]),
            forall|j: int| i <= j < n ==> #[trigger] states@[j] == start[j],
        decreases n - i,
    {
        let mut s = states[i];
        s.redraw = IVec3::zero();
        states.set(i, s);
        i = i + 1;
    }
    assert(states@ =~= start.map_values(|s: CascadeState| idle_state(s)));
    match select_cascade(cascades, frame) {
        None => None,
        Some(i) => {
            proof {
                lemma_first_scheduled_from(cascades@, frame as int, 0);
            }
            assert(cascades@[i as int].valid());
            let ts = cascades[i].tile_size();
            assert(origin_in_range(centre, ts as int));
            let origin = tile_origin(centre, ts);
            let mut s = states[i];
            assert(next_state(s, origin) == next_state(start[i as int], origin));
            let updated = advance_cascade(&mut s, origin);
            states.set(i, s);
            if updated {
                Some(CascadeUpdate { index: i, origin: s.last_origin.unwrap(), redraw: s.redraw, tile_size: ts })
            } else {
                None
            }
        },
    }
}


/// When one axis of the clamped scroll is strictly the largest in magnitude,
/// the redraw is non-zero on exactly that axis.
pub proof fn lemma_dominant_axis_restriction(s: CascadeState, origin: IVec3, k: int)
    requires
        s.last_origin is Some,
        0 <= k < 3,
        forall|j: int|
            0 <= j < 3 && j != k ==> abs(clamped_delta(origin, s.last_origin.unwrap()).at(k)) > abs(
                #[trigger] clamped_delta(origin, s.last_origin.unwrap()).at(j),
            ),
    ensures
        next_state(s, origin).redraw.at(k) != 0,
        forall|j: int| 0 <= j < 3 && j != k ==> #[trigger] next_state(s, origin).redraw.at(j) == 0,
{
    let d = clamped_delta(origin, s.last_origin.unwrap());
    if k == 0 {
        assert(abs(d.at(0)) > abs(d.at(1)) && abs(d.at(0)) > abs(d.at(2)));
    } else if k == 1 {
        assert(abs(d.at(1)) > abs(d.at(0)) && abs(d.at(1)) > abs(d.at(2)));
    } else {
        assert(abs(d.at(2)) > abs(d.at(0)) && abs(d.at(2)) > abs(d.at(1)));
    }
}

/// Whatever the window corners, no axis of a redraw exceeds one window width.
pub proof fn lemma_redraw_clamped(s: CascadeState, origin: IVec3)
    ensures
        forall|axis: int|
            0 <= axis < 3 ==> abs(#[trigger] next_state(s, origin).redraw.at(axis)) <= TILE_DIM_COUNT as int,
{
}

/// When the scheduled cascade's window already sits at the viewer's tile, the
/// frame brings no update: nothing downstream runs, no window moves, and every
/// redraw is zero.
pub proof fn lemma_zero_delta_idempotence(
    states: Seq<CascadeState>,
    cs: Seq<CascadeSettings>,
    frame: int,
    centre: IVec3,
)
    requires
        states.len() == cs.len(),
        first_scheduled(cs, frame) matches Some(i) && states[i].last_origin == Some(
            tile_origin_spec(centre, tile_size_of(cs[i].far_distance as int)),
        ),
    ensures
        frame_update(states, cs, frame, centre) is None,
        forall|j: int|
            0 <= j < states.len() ==> #[trigger] frame_states(states, cs, frame, centre)[j] == idle_state(
                states[j],
            ),
{
    lemma_first_scheduled_from(cs, frame, 0);
    let i = first_scheduled(cs, frame).unwrap();
    let o = tile_origin_spec(centre, tile_size_of(cs[i].far_distance as int));
    assert(is_zero_vec(clamped_delta(o, o)));
}

} // verus!
