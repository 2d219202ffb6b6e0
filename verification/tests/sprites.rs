use factorio_3d::billboards::Billboards;
use factorio_3d::capture::CaptureKind;
use factorio_3d::draw::DrawContext;
use factorio_3d::frame::ViewRect;
use factorio_3d::hooks::MapPos;
use factorio_3d::sprites::{
    arm_is_flat, clear_batch_registry, divert_ground_range, divert_object_range,
    force_flush_batches, hooked_dcb_flush, hooked_draw_entities, hooked_place_sprite,
    is_belt_layer, is_recordable, keeps_part, replays, retag, retarget_layer, rotated_arg_for,
    BatchEntry, GroundSegment, Placed, RangeUse, Segment, SizeTests,
};

#[test]
fn belts_and_rails_get_a_late_layer() {
    for l in [68, 76, 84, 96, 97, 100, 104, 105, 117] {
        assert_eq!(retarget_layer(l), 155);
    }
    assert_eq!(retarget_layer(109), 156);
    assert_eq!(retarget_layer(118), 121);
    assert_eq!(retarget_layer(119), 121);
    assert_eq!(retarget_layer(65), 65);
    assert_eq!(retarget_layer(124), 124);
    assert_eq!(retag(false, 117), 117);
    assert_eq!(retag(true, 117), 155);
    for l in 0..=255u8 {
        assert_eq!(retarget_layer(retarget_layer(l)), retarget_layer(l));
    }
}

#[test]
fn belt_layers_are_those_of_belts_and_rails() {
    let belts: Vec<u8> = (0..=255u8).filter(|l| is_belt_layer(*l)).collect();
    assert_eq!(belts, vec![65, 68, 76, 84, 96, 97, 100, 104, 105, 109, 117]);
}

#[test]
fn standing_sprites_turn_with_the_camera() {
    let mut c = DrawContext::new();
    assert!(rotated_arg_for(&c, true, true, 118, true, 900));
    assert!(rotated_arg_for(&c, true, true, 132, true, 900));
    assert!(!rotated_arg_for(&c, true, true, 133, true, 900));
    assert!(!rotated_arg_for(&c, false, true, 118, true, 900));
    assert!(!rotated_arg_for(&c, true, false, 118, true, 900));
    assert!(!rotated_arg_for(&c, true, true, 118, true, 10));
    c.in_character = true;
    assert!(rotated_arg_for(&c, true, true, 60, true, 900));
    assert!(!arm_is_flat(&c));
    c.static_depth = 1;
    assert!(arm_is_flat(&c));
}

fn good() -> SizeTests {
    SizeTests {
        consistent: true,
        sensible: true,
        below_half_view: true,
        visible: true,
        taller_than_player_shadow: true,
        taller_than_vehicle_shadow: true,
        tint: 1,
    }
}

#[test]
fn shadows_lights_and_other_views_are_not_recorded() {
    let mut c = DrawContext::new();
    c.layer = 124;
    assert!(is_recordable(&c, true, Some(0x1), true));
    assert!(is_recordable(&c, true, None, true));
    assert!(!is_recordable(&c, true, Some(0x2), true));
    assert!(!is_recordable(&c, true, Some(0x4), true));
    assert!(!is_recordable(&c, true, None, false));
    assert!(!is_recordable(&c, false, None, true));
    c.layer = 131;
    assert!(!is_recordable(&c, true, None, true));
    c.entity_depth = 1;
    assert!(is_recordable(&c, true, None, true));
}

#[test]
fn what_moves_must_be_small_and_no_shadow() {
    let mut c = DrawContext::new();
    let mut t = good();
    t.below_half_view = false;
    t.taller_than_player_shadow = false;
    t.taller_than_vehicle_shadow = false;
    assert!(keeps_part(&c, &t));
    c.in_character = true;
    assert!(!keeps_part(&c, &t));
    t.below_half_view = true;
    t.taller_than_player_shadow = true;
    assert!(keeps_part(&c, &t));
    c.in_character = false;
    c.entity_depth = 1;
    assert!(!keeps_part(&c, &t));
    t.taller_than_vehicle_shadow = true;
    assert!(keeps_part(&c, &t));
    t.tint = 0;
    assert!(!keeps_part(&c, &t));
}

#[test]
fn a_placed_sprite_is_recorded_with_its_view() {
    let mut b = Billboards::new();
    let mut c = DrawContext::new();
    c.layer = 124;
    let mut p = Placed {
        cx: 1,
        cy: 2,
        hw: 3,
        hh: 4,
        pos: Some(MapPos { x: 512, y: -256 }),
        screen: MapPos { x: 9, y: 9 },
        left: 0,
        top: -100,
        right: 2560,
        bottom: 1340,
    };
    hooked_place_sprite(&mut b, &c, true, None, true, &good(), &p);
    c.in_character = true;
    c.serial = 5;
    p.pos = None;
    p.right = 25;
    hooked_place_sprite(&mut b, &c, true, None, true, &good(), &p);
    hooked_place_sprite(&mut b, &c, true, None, false, &good(), &p);
    assert_eq!(b.pending.len(), 2);
    assert_eq!((b.pending[0].kx, b.pending[0].ky, b.pending[0].grp), (512, -256, 0));
    assert_eq!(
        b.pending[0].stamp,
        ViewRect { left: 0, top: -100, span_x: 2560, span_y: 1440 }
    );
    assert_eq!((b.pending[1].kx, b.pending[1].grp, b.pending[1].player), (9, 5, true));
    assert_eq!(b.pending[1].stamp, ViewRect { left: 0, top: 0, span_x: 0, span_y: 0 });
}

#[test]
fn ranges_of_layers_are_told_apart() {
    assert_eq!(hooked_draw_entities(true, true, 120, 133), RangeUse::Capture(CaptureKind::Object));
    assert_eq!(hooked_draw_entities(true, true, 155, 159), RangeUse::Capture(CaptureKind::Belt));
    assert_eq!(hooked_draw_entities(true, true, 133, 153), RangeUse::Capture(CaptureKind::Elevated));
    assert_eq!(hooked_draw_entities(true, true, 120, 134), RangeUse::Plain);
    assert_eq!(hooked_draw_entities(true, true, 119, 200), RangeUse::Ground);
    assert_eq!(hooked_draw_entities(true, true, 159, 200), RangeUse::Plain);
    assert_eq!(hooked_draw_entities(true, false, 120, 133), RangeUse::Plain);
    assert_eq!(hooked_draw_entities(false, true, 120, 133), RangeUse::Plain);
}

#[test]
fn wires_are_split_off_the_objects() {
    let o = CaptureKind::Object;
    let s = |from, to, kind| Segment { from, to, kind };
    assert_eq!(
        divert_object_range(120, 133, o),
        vec![s(120, 131, o), s(131, 132, CaptureKind::Wire), s(132, 133, o)]
    );
    assert_eq!(divert_object_range(131, 132, o), vec![s(131, 132, CaptureKind::Wire)]);
    assert_eq!(divert_object_range(120, 131, o), vec![s(120, 131, o)]);
    assert_eq!(
        divert_object_range(155, 159, CaptureKind::Belt),
        vec![s(155, 159, CaptureKind::Belt)]
    );
    assert!(replays(true, o, true));
    assert!(!replays(true, CaptureKind::Belt, true));
    assert!(!replays(true, o, false));
}

#[test]
fn the_ground_is_split_into_runs() {
    let s = |from, to, belt| GroundSegment { from, to, belt };
    assert_eq!(
        divert_ground_range(95, 99),
        vec![s(95, 96, false), s(96, 98, true), s(98, 99, false)]
    );
    assert_eq!(divert_ground_range(0, 60), vec![s(0, 60, false)]);
    assert_eq!(divert_ground_range(65, 65), vec![s(65, 65, true)]);
    let all = divert_ground_range(0, 120);
    assert_eq!(all[0].from, 0);
    assert_eq!(all[all.len() - 1].to, 120);
    for w in all.windows(2) {
        assert!(w[0].to == w[1].from && w[0].belt != w[1].belt);
    }
}

#[test]
fn batches_are_known_by_address_and_forgotten_with_time() {
    let mut reg: Vec<BatchEntry> = Vec::new();
    hooked_dcb_flush(&mut reg, 0, 1, 5);
    assert!(reg.is_empty());
    for p in 1..=9u64 {
        hooked_dcb_flush(&mut reg, p, 0, 10);
    }
    assert_eq!(reg.len(), 8);
    hooked_dcb_flush(&mut reg, 3, 7, 200);
    assert_eq!(reg.len(), 8);
    assert_eq!(reg[2], BatchEntry { ptr: 3, arg: 7, seen: 200 });
    assert_eq!(force_flush_batches(&reg, 130).len(), 8);
    assert_eq!(force_flush_batches(&reg, 131), vec![BatchEntry { ptr: 3, arg: 7, seen: 200 }]);
    clear_batch_registry(&mut reg);
    assert!(reg.is_empty());
}
