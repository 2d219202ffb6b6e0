use factorio_3d::draw::{
    ari_frame_compute, begin_character, begin_directional, begin_vehicle, dir_rot_steps,
    end_character, end_directional, end_vehicle, frame_rot_delta, pipe_group_compute, set_crane,
    set_flat, set_layer, turn_dir, DrawContext, NO_LAYER,
};

#[test]
fn a_character_has_a_serial_number_while_it_is_drawn() {
    let mut c = DrawContext::new();
    let mut next = 7;
    begin_character(&mut c, &mut next);
    assert_eq!((c.serial, c.in_character, next), (7, true, 8));
    end_character(&mut c);
    assert_eq!(c, DrawContext::new());
}

#[test]
fn serial_numbers_skip_zero_and_wrap() {
    let mut c = DrawContext::new();
    let mut next = 0;
    begin_character(&mut c, &mut next);
    assert_eq!((c.serial, next), (1, 1));
    next = u32::MAX;
    begin_character(&mut c, &mut next);
    assert_eq!((c.serial, next), (u32::MAX, 0));
}

#[test]
fn nested_vehicle_draws_share_a_serial_number() {
    let mut c = DrawContext::new();
    let mut next = 3;
    begin_vehicle(&mut c, &mut next, true, true);
    assert_eq!((c.serial, c.entity_depth, c.unit_depth, c.in_fly), (3, 1, 1, true));
    begin_vehicle(&mut c, &mut next, false, false);
    assert_eq!((c.serial, c.entity_depth, next), (3, 2, 4));
    end_vehicle(&mut c, false, false);
    assert_eq!((c.serial, c.entity_depth), (3, 1));
    end_vehicle(&mut c, true, true);
    assert_eq!(c, DrawContext::new());
}

#[test]
fn an_end_without_a_beginning_does_no_harm() {
    let mut c = DrawContext::new();
    end_vehicle(&mut c, true, true);
    assert_eq!(c, DrawContext::new());
}

#[test]
fn marks_are_set_and_taken_back() {
    let mut c = DrawContext::new();
    set_layer(&mut c, 124);
    set_crane(&mut c, true);
    set_flat(&mut c, true, true);
    assert!(c.layer == 124 && c.in_crane && c.in_flat && c.flat_elevated);
    set_flat(&mut c, false, false);
    assert!(!c.in_flat && c.flat_elevated);
    set_flat(&mut c, false, true);
    set_crane(&mut c, false);
    set_layer(&mut c, NO_LAYER);
    assert_eq!(c, DrawContext::new());
}

#[test]
fn orientations_turn_only_while_something_is_drawn() {
    let mut c = DrawContext::new();
    assert_eq!(frame_rot_delta(&c, true, 900), None);
    c.in_prepare = true;
    assert_eq!(frame_rot_delta(&c, true, 900), Some(900));
    assert_eq!(frame_rot_delta(&c, false, 900), None);
    assert_eq!(frame_rot_delta(&c, true, 10), None);
    assert_eq!(frame_rot_delta(&c, true, 11), Some(11));
}

#[test]
fn quarter_turns_are_the_nearest() {
    let mut c = DrawContext::new();
    c.static_depth = 1;
    let steps: Vec<u8> =
        [440, 449, 450, 900, 1349, 1350, 2249, 2250, 3149, 3150, 3599]
            .iter()
            .map(|y| dir_rot_steps(&c, true, *y))
            .collect();
    assert_eq!(steps, vec![0, 0, 1, 1, 1, 2, 2, 3, 3, 0, 0]);
    assert_eq!(dir_rot_steps(&c, false, 900), 0);
}

#[test]
fn directions_turn_and_add_up() {
    assert_eq!(turn_dir(0, 1), 4);
    assert_eq!(turn_dir(14, 1), 2);
    assert_eq!(turn_dir(15, 3), 11);
    assert_eq!(turn_dir(16, 3), 16);
    assert_eq!(turn_dir(200, 2), 200);
    for d in 0..16u8 {
        for p in 0..4u8 {
            for q in 0..4u8 {
                assert_eq!(turn_dir(turn_dir(d, p), q), turn_dir(d, (p + q) % 4));
            }
            assert_eq!(turn_dir(turn_dir(d, p), (4 - p) % 4), d);
        }
    }
}

#[test]
fn pipe_connections_turn_in_the_low_bits() {
    assert_eq!(pipe_group_compute(0b0001, 1), 0b0010);
    assert_eq!(pipe_group_compute(0b1000, 1), 0b0001);
    assert_eq!(pipe_group_compute(0b1010, 1), 0b0101);
    assert_eq!(pipe_group_compute(0b0011, 3), 0b1001);
    assert_eq!(pipe_group_compute(0xF3, 2), 0xFC);
    for m in 0..=255u8 {
        for p in 0..4u8 {
            for q in 0..4u8 {
                assert_eq!(
                    pipe_group_compute(pipe_group_compute(m, p), q),
                    pipe_group_compute(m, (p + q) % 4)
                );
            }
        }
    }
}

#[test]
fn only_proper_orientations_turn() {
    let mut c = DrawContext::new();
    c.in_character = true;
    assert!(ari_frame_compute(&c, true, 900, 0.5f32.to_bits()));
    assert!(ari_frame_compute(&c, true, 900, 0.0f32.to_bits()));
    assert!(ari_frame_compute(&c, true, 900, (-0.0f32).to_bits()));
    assert!(!ari_frame_compute(&c, true, 900, 1.0f32.to_bits()));
    assert!(!ari_frame_compute(&c, true, 900, (-0.25f32).to_bits()));
    assert!(!ari_frame_compute(&c, true, 900, f32::NAN.to_bits()));
    assert!(!ari_frame_compute(&c, true, 5, 0.5f32.to_bits()));
}

#[test]
fn a_direction_is_changed_for_a_draw_and_set_back() {
    let mut c = DrawContext::new();
    let changed = begin_directional(&mut c, true, 900, false, Some(12));
    assert_eq!((changed, c.static_depth), (Some(0), 1));
    assert_eq!(end_directional(&mut c, 12, changed), Some(12));
    assert_eq!(c, DrawContext::new());
}

#[test]
fn no_direction_is_changed_during_a_save() {
    let mut c = DrawContext::new();
    assert_eq!(begin_directional(&mut c, true, 900, true, Some(12)), None);
    assert_eq!(end_directional(&mut c, 12, None), None);
    assert_eq!(begin_directional(&mut c, true, 0, false, Some(12)), None);
    assert_eq!(begin_directional(&mut c, true, 900, false, Some(16)), None);
    assert_eq!(begin_directional(&mut c, true, 900, false, None), None);
}
