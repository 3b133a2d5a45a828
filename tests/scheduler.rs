use bevy_scene_sdf::geom::IVec3;
use bevy_scene_sdf::region::{clip_boxes, redraw_regions, TileRegion};
use bevy_scene_sdf::scheduler::{
    advance_cascade, cascade_is_scheduled, centre_fits, pick_dominant_axis, reset_states, schedule_frame,
    select_cascade, tile_origin, CascadeState,
};
use bevy_scene_sdf::settings::{CascadeSettings, CascadeUpdateSchedule, ExtractionFilter, SceneSdfSettings};

fn one_cascade(far_distance: i64) -> Vec<CascadeSettings> {
    vec![CascadeSettings { far_distance, update_schedule: CascadeUpdateSchedule { frequency: 1, offset: 0 } }]
}

#[test]
fn first_update_redraws_full_window() {
    // far distance 3.0 world units, 16 tiles per axis, viewer at the origin
    let cascades = one_cascade(3072);
    let mut states = reset_states(1);
    let update = schedule_frame(&mut states, &cascades, 0, IVec3::new(0, 0, 0)).unwrap();
    assert_eq!(update.index, 0);
    assert_eq!(update.redraw, IVec3::new(16, 0, 0));
    assert_eq!(update.tile_size, 384);
    assert_eq!(update.origin, IVec3::new(-8, -8, -8));
    assert_eq!(states[0].last_origin, Some(IVec3::new(-8, -8, -8)));
    assert_eq!(states[0].redraw, IVec3::new(16, 0, 0));
}

#[test]
fn move_within_one_tile_redraws_nothing() {
    let cascades = one_cascade(3072);
    let mut states = reset_states(1);
    schedule_frame(&mut states, &cascades, 0, IVec3::new(0, 0, 0)).unwrap();
    let next = schedule_frame(&mut states, &cascades, 1, IVec3::new(300, 100, 383));
    assert!(next.is_none());
    assert_eq!(states[0].redraw, IVec3::new(0, 0, 0));
    assert_eq!(states[0].last_origin, Some(IVec3::new(-8, -8, -8)));
}

#[test]
fn same_position_twice_is_idle() {
    let cascades = one_cascade(3072);
    let mut states = reset_states(1);
    let centre = IVec3::new(5000, -7000, 123);
    assert!(schedule_frame(&mut states, &cascades, 0, centre).is_some());
    let before = states[0].last_origin;
    assert!(schedule_frame(&mut states, &cascades, 1, centre).is_none());
    assert_eq!(states[0].last_origin, before);
    assert_eq!(states[0].redraw, IVec3::zero());
}

#[test]
fn scroll_keeps_only_dominant_axis() {
    let cascades = one_cascade(3072);
    let mut states = reset_states(1);
    schedule_frame(&mut states, &cascades, 0, IVec3::new(0, 0, 0)).unwrap();
    // three tiles along x, one along y
    let update = schedule_frame(&mut states, &cascades, 1, IVec3::new(3 * 384, 384, 0)).unwrap();
    assert_eq!(update.redraw, IVec3::new(3, 0, 0));
    assert_eq!(update.origin, IVec3::new(-5, -8, -8));
    // the y scroll is picked up by the next update
    let update = schedule_frame(&mut states, &cascades, 2, IVec3::new(3 * 384, 384, 0)).unwrap();
    assert_eq!(update.redraw, IVec3::new(0, 1, 0));
    assert_eq!(update.origin, IVec3::new(-5, -7, -8));
}

#[test]
fn backward_scroll_is_negative() {
    let mut state = CascadeState { last_origin: Some(IVec3::new(0, 0, 0)), redraw: IVec3::zero() };
    assert!(advance_cascade(&mut state, IVec3::new(0, 0, -5)));
    assert_eq!(state.redraw, IVec3::new(0, 0, -5));
    assert_eq!(state.last_origin, Some(IVec3::new(0, 0, -5)));
}

#[test]
fn large_jump_is_clamped_to_window() {
    let mut state = CascadeState { last_origin: Some(IVec3::new(0, 0, 0)), redraw: IVec3::zero() };
    assert!(advance_cascade(&mut state, IVec3::new(-100, 40, 2)));
    assert_eq!(state.redraw, IVec3::new(-16, 0, 0));
    assert_eq!(state.last_origin, Some(IVec3::new(-100, 0, 0)));
    let mut extreme = CascadeState { last_origin: Some(IVec3::new(i64::MIN, 0, 0)), redraw: IVec3::zero() };
    assert!(advance_cascade(&mut extreme, IVec3::new(i64::MAX, 0, 0)));
    assert_eq!(extreme.redraw, IVec3::new(16, 0, 0));
}

#[test]
fn dominant_axis_ties_go_to_earlier_axis() {
    assert_eq!(pick_dominant_axis(&IVec3::new(2, -2, 1)), 0);
    assert_eq!(pick_dominant_axis(&IVec3::new(1, -3, 3)), 1);
    assert_eq!(pick_dominant_axis(&IVec3::new(0, 0, -1)), 2);
    let mut state = CascadeState { last_origin: Some(IVec3::new(0, 0, 0)), redraw: IVec3::zero() };
    advance_cascade(&mut state, IVec3::new(2, 2, 2));
    assert_eq!(state.redraw, IVec3::new(2, 0, 0));
}

#[test]
fn earlier_cascade_wins_a_shared_frame() {
    let settings = SceneSdfSettings::default();
    assert_eq!(select_cascade(&settings.cascades, 0), Some(0));
    assert_eq!(select_cascade(&settings.cascades, 1), Some(1));
    assert_eq!(select_cascade(&settings.cascades, 2), Some(2));
    assert_eq!(select_cascade(&settings.cascades, 3), Some(0));
    assert_eq!(select_cascade(&settings.cascades, 5), Some(3));
    assert_eq!(select_cascade(&settings.cascades, 8), Some(4));
    assert_eq!(select_cascade(&settings.cascades, 11), Some(5));
    assert_eq!(select_cascade(&settings.cascades, 14), Some(6));
    assert_eq!(select_cascade(&settings.cascades, 15), Some(0));
    // 15 % 3 == 0, and 17 % 3 == 2 matches nothing among the two finest
    assert_eq!(select_cascade(&settings.cascades, 17), Some(2));
    let sparse = vec![CascadeSettings {
        far_distance: 3072,
        update_schedule: CascadeUpdateSchedule { frequency: 4, offset: 3 },
    }];
    assert_eq!(select_cascade(&sparse, 2), None);
    assert!(cascade_is_scheduled(&sparse[0].update_schedule, 7));
}

#[test]
fn unscheduled_cascades_get_zero_redraw() {
    let settings = SceneSdfSettings::default();
    let mut states = reset_states(7);
    states[3].redraw = IVec3::new(4, 0, 0);
    let update = schedule_frame(&mut states, &settings.cascades, 0, IVec3::new(0, 0, 0)).unwrap();
    assert_eq!(update.index, 0);
    for i in 1..7 {
        assert_eq!(states[i].redraw, IVec3::zero());
        assert_eq!(states[i].last_origin, None);
    }
}

#[test]
fn default_settings() {
    let settings = SceneSdfSettings::default();
    assert_eq!(settings.filter, ExtractionFilter::Unmarked);
    let far: Vec<i64> = settings.cascades.iter().map(|c| c.far_distance).collect();
    assert_eq!(far, vec![3072, 5120, 7680, 11520, 17408, 30720, 61440]);
    assert_eq!(settings.cascades[3].update_schedule, CascadeUpdateSchedule { frequency: 15, offset: 5 });
    assert_eq!(settings.cascades[0].tile_size(), 384);
    assert_eq!(settings.cascades[3].tile_size(), 1440);
    assert_eq!(settings.cascades[6].tile_size(), 7680);
}

#[test]
fn tile_origin_rounds_down() {
    assert_eq!(tile_origin(IVec3::new(-1, 383, 384), 384), IVec3::new(-9, -8, -7));
    assert_eq!(tile_origin(IVec3::new(-384, -385, 767), 384), IVec3::new(-9, -10, -7));
    assert!(centre_fits(IVec3::new(0, 0, 0), 1));
    assert!(!centre_fits(IVec3::new(i64::MIN, 0, 0), 1));
    assert!(centre_fits(IVec3::new(i64::MIN, 0, 0), 2));
}

#[test]
fn redraw_slabs_and_clip_boxes() {
    let forward = redraw_regions(&IVec3::new(3, 0, 0));
    assert_eq!(
        forward,
        vec![TileRegion { lo_x: 13, lo_y: 0, lo_z: 0, hi_x: 16, hi_y: 16, hi_z: 16 }]
    );
    let back = redraw_regions(&IVec3::new(0, -2, 0));
    assert_eq!(back, vec![TileRegion { lo_x: 0, lo_y: 0, lo_z: 0, hi_x: 16, hi_y: 2, hi_z: 16 }]);
    assert_eq!(redraw_regions(&IVec3::zero()).len(), 0);
    assert_eq!(redraw_regions(&IVec3::new(1, 0, -1)).len(), 2);
    let boxes = clip_boxes(&IVec3::new(-8, -8, -8), 384, &forward);
    assert_eq!(boxes.len(), 1);
    assert_eq!((boxes[0].min_x, boxes[0].max_x), (1920, 3072));
    assert_eq!((boxes[0].min_y, boxes[0].max_y), (-3072, 3072));
    assert_eq!((boxes[0].min_z, boxes[0].max_z), (-3072, 3072));
    let far = clip_boxes(&IVec3::new(i64::MAX, 0, 0), i64::MAX, &redraw_regions(&IVec3::new(16, 0, 0)));
    assert_eq!(far[0].min_x, (i64::MAX as i128) * (i64::MAX as i128));
}

#[test]
fn frame_without_scheduled_cascade_is_idle() {
    let cascades = vec![CascadeSettings {
        far_distance: 3072,
        update_schedule: CascadeUpdateSchedule { frequency: 4, offset: 3 },
    }];
    let mut states = reset_states(1);
    states[0].redraw = IVec3::new(0, 5, 0);
    assert!(schedule_frame(&mut states, &cascades, 2, IVec3::new(0, 0, 0)).is_none());
    assert_eq!(states[0].redraw, IVec3::zero());
    assert_eq!(states[0].last_origin, None);
    assert!(schedule_frame(&mut states, &cascades, 3, IVec3::new(0, 0, 0)).is_some());
}
