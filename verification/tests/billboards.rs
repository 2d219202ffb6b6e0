use factorio_3d::billboards::{
    chunk_key, clear_store, majority_stamp, publish_frame, record, take_batches, BbRect,
    Billboards, MAX_RECTS,
};
use factorio_3d::capture::{
    advance_hi_rotation, begin_capture, begin_hi_capture, capture_enabled, end_capture,
    end_hi_capture, ensure_hi_slot, ensure_target, hi_grid_for, init, redirect_views, redirects,
    set_capture_enabled, set_world_render_active, substitute_scissor, take_frame_capture,
    world_render_active, Binding, Capture, CaptureKind, HiKind, HiTiles, TargetNeed,
};
use factorio_3d::frame::ViewRect;
use factorio_3d::quads::{build_billboards, draft_quads, Batch, Draft, Fit, Lift};
use factorio_3d::renderer::{
    after_render, anchors, flat_layers, group_anchor, group_specials, hi_tile, is_rotated,
    order_quads, standing_parts, AfterRender, GroupAnchor, Layer, PartRect, MAX_BILLBOARDS,
};

const VIEW: ViewRect = ViewRect { left: 0, top: 0, span_x: 8192, span_y: 8192 };

fn bb(kx: i32, ky: i32, stamp: ViewRect) -> BbRect {
    BbRect {
        cx: 0,
        cy: 0,
        hw: 0,
        hh: 0,
        kx,
        ky,
        player: false,
        unit: false,
        flat: false,
        fly: false,
        elevated_flat: false,
        stamp,
        special: false,
        grp: 0,
    }
}

fn part(kx: i32, ky: i32, vb: i32, grp: u32) -> PartRect {
    PartRect {
        x0: kx - 10,
        x1: kx + 10,
        y0: ky - 20,
        y1: ky,
        vb,
        uc: kx,
        kx,
        ky,
        player: false,
        unit: false,
        flat: false,
        fly: false,
        elevated_flat: false,
        special: grp != 0,
        grp,
    }
}

fn bound() -> Option<Binding> {
    Some(Binding { rtv: 11, res: 12, dsv: 13, w: 1920, h: 1080, format: 28 })
}

fn ready() -> Capture {
    let mut s = Capture::new();
    init(&mut s);
    s
}

#[test]
fn chunks_are_thirty_two_tiles_wide() {
    assert_eq!(chunk_key(&bb(0, 8191, VIEW)), (0, 0));
    assert_eq!(chunk_key(&bb(8192, -1, VIEW)), (1, -1));
    assert_eq!(chunk_key(&bb(-8193, -8192, VIEW)), (-2, -1));
}

#[test]
fn most_rects_decide_the_stamp() {
    let other = ViewRect { left: 640, ..VIEW };
    let close = ViewRect { left: 31, ..VIEW };
    let b = majority_stamp(vec![bb(1, 0, VIEW), bb(2, 0, other), bb(3, 0, close)], VIEW);
    assert_eq!(b.stamp, close);
    assert_eq!(b.rects.iter().map(|r| r.kx).collect::<Vec<_>>(), vec![1, 3]);
    let unknown = ViewRect { left: 0, top: 0, span_x: 0, span_y: 0 };
    let b = majority_stamp(vec![bb(1, 0, unknown), bb(2, 0, unknown)], other);
    assert_eq!(b.stamp, other);
    assert_eq!(b.rects.len(), 2);
    assert!(majority_stamp(vec![], other).rects.is_empty());
}

#[test]
fn a_frame_is_published_chunk_by_chunk() {
    let mut b = Billboards::new();
    record(&mut b, bb(10, 10, VIEW));
    record(&mut b, bb(9000, 10, VIEW));
    record(&mut b, BbRect { special: true, ..bb(5, 5, VIEW) });
    publish_frame(&mut b, VIEW);
    assert!(b.pending.is_empty());
    assert_eq!(take_batches(&b).len(), 3);
    record(&mut b, bb(20, 20, VIEW));
    publish_frame(&mut b, VIEW);
    let batches = take_batches(&b);
    assert_eq!(batches.len(), 2);
    assert!(batches.iter().any(|c| c.rects[0].kx == 20));
    assert!(batches.iter().any(|c| c.rects[0].kx == 9000));
}

#[test]
fn an_idle_frame_keeps_what_was_published() {
    let mut b = Billboards::new();
    record(&mut b, bb(10, 10, VIEW));
    publish_frame(&mut b, VIEW);
    publish_frame(&mut b, VIEW);
    assert_eq!(take_batches(&b).len(), 1);
    clear_store(&mut b);
    assert!(take_batches(&b).is_empty());
    assert_eq!(b.last_stamp, Some(VIEW));
}

#[test]
fn a_jump_of_the_view_drops_the_store() {
    let mut b = Billboards::new();
    record(&mut b, bb(10, 10, VIEW));
    publish_frame(&mut b, VIEW);
    publish_frame(&mut b, ViewRect { left: 5000, ..VIEW });
    assert!(take_batches(&b).is_empty());
}

#[test]
fn chunks_far_from_the_view_are_dropped() {
    let mut b = Billboards::new();
    record(&mut b, bb(10, 10, VIEW));
    record(&mut b, bb(18431, 10, VIEW));
    record(&mut b, bb(40 * 8192, 10, VIEW));
    publish_frame(&mut b, VIEW);
    assert_eq!(take_batches(&b).len(), 2);
}

#[test]
fn pending_rects_are_bounded() {
    let mut b = Billboards::new();
    for _ in 0..MAX_RECTS + 3 {
        record(&mut b, bb(0, 0, VIEW));
    }
    assert_eq!(b.pending.len(), MAX_RECTS);
}

#[test]
fn special_parts_are_joined_by_serial() {
    let mut second = part(100, 40, 0, 7);
    second.player = true;
    let rects = vec![part(0, 0, 0, 7), part(5, 5, 0, 9), second, part(50, 50, 0, 0)];
    let g = group_specials(&rects);
    assert_eq!(g.iter().map(|g| g.grp).collect::<Vec<_>>(), vec![7, 9]);
    assert_eq!((g[0].x0, g[0].x1, g[0].y0, g[0].y1), (-10, 110, -20, 40));
    assert_eq!((g[0].kx0, g[0].kx1), (0, 100));
    assert!(g[0].player);
    assert_eq!(group_anchor(&g[0], true, true), GroupAnchor::Hidden);
    assert_eq!(group_anchor(&g[0], false, true), GroupAnchor::LowerEdge);
    assert_eq!(group_anchor(&g[1], false, true), GroupAnchor::MapPosition);
    assert_eq!(group_anchor(&g[1], false, false), GroupAnchor::LowerEdge);
    assert_eq!(standing_parts(&rects).len(), 1);
}

#[test]
fn flat_and_flying_groups_have_their_own_anchor() {
    let mut flat = part(0, 0, 0, 1);
    flat.flat = true;
    let mut fly = part(0, 0, 0, 2);
    fly.fly = true;
    let g = group_specials(&vec![flat, fly]);
    assert_eq!(group_anchor(&g[0], false, true), GroupAnchor::Flat);
    assert_eq!(group_anchor(&g[1], false, true), GroupAnchor::Fly);
}

#[test]
fn parts_of_a_building_stand_on_one_line() {
    let a = anchors(&vec![part(0, 0, 5, 0), part(192, 10, 30, 0), part(400, 0, 7, 0)]);
    assert_eq!(a, vec![(30, 192), (30, 192), (7, 400)]);
    let spread = anchors(&vec![part(0, 0, 5, 3), part(1000, 0, 9, 3)]);
    assert_eq!(spread, vec![(5, 0), (9, 1000)]);
}

#[test]
fn quads_are_drawn_far_to_near() {
    assert_eq!(order_quads(&vec![1, 5, 3, 5]), vec![1, 3, 2, 0]);
    let many: Vec<i32> = (0..MAX_BILLBOARDS as i32 + 2).collect();
    let order = order_quads(&many);
    assert_eq!(order.len(), MAX_BILLBOARDS);
    assert_eq!(order[0], MAX_BILLBOARDS - 1);
    assert_eq!(*order.last().unwrap(), 0);
}

#[test]
fn the_tile_that_holds_a_sprite() {
    let covered = vec![true, false, true, false, true];
    assert_eq!(hi_tile(false, false, true, 2, 0, 0, &covered), None);
    assert_eq!(hi_tile(true, false, false, 2, 0, 1, &covered), Some(2));
    assert_eq!(hi_tile(true, false, false, 2, 1, 0, &covered), None);
    assert_eq!(hi_tile(true, true, true, 1, 0, 0, &covered), Some(4));
    assert_eq!(hi_tile(true, true, false, 1, 0, 0, &covered), None);
}

#[test]
fn what_follows_the_world_s_rendering() {
    assert!(!is_rotated(0, 900, false));
    assert!(is_rotated(-11, 900, false));
    assert!(is_rotated(0, 889, false));
    assert!(is_rotated(0, 900, true));
    assert_eq!(after_render(false, None, (1, 1)), AfterRender::ComposeFlat);
    assert_eq!(after_render(true, Some((1, 1)), (1, 1)), AfterRender::WarpWithLayers);
    assert_eq!(after_render(true, Some((2, 1)), (1, 1)), AfterRender::WarpAlone);
    assert_eq!(flat_layers(true, false, true, true), vec![Layer::Belt, Layer::Wire, Layer::Object]);
    assert!(flat_layers(false, false, false, false).is_empty());
}

#[test]
fn one_window_is_open_at_a_time() {
    let mut s = ready();
    assert_eq!(ensure_target(&s, CaptureKind::Belt, &bound(), 1920), TargetNeed::Create);
    assert_eq!(begin_capture(&mut s, CaptureKind::Belt, bound(), 1920, false), None);
    assert_eq!(begin_capture(&mut s, CaptureKind::Belt, bound(), 1921, true), None);
    assert_eq!(begin_capture(&mut s, CaptureKind::Belt, None, 1920, true), None);
    assert_eq!(begin_capture(&mut s, CaptureKind::Belt, bound(), 1920, true), Some(true));
    assert_eq!(begin_capture(&mut s, CaptureKind::Object, bound(), 1920, true), None);
    assert_eq!(ensure_target(&s, CaptureKind::Belt, &bound(), 1920), TargetNeed::Refused);
    assert_eq!(end_capture(&mut s), bound());
    assert_eq!(end_capture(&mut s), None);
    assert_eq!(ensure_target(&s, CaptureKind::Belt, &bound(), 1920), TargetNeed::Ready);
    assert_eq!(begin_capture(&mut s, CaptureKind::Belt, bound(), 1920, false), Some(false));
}

#[test]
fn nothing_is_captured_before_the_start() {
    let mut s = Capture::new();
    assert_eq!(begin_capture(&mut s, CaptureKind::Wire, bound(), 1920, true), None);
    let (frame, binding) = take_frame_capture(&mut s, &HiTiles::new());
    assert!(frame.is_none());
    assert_eq!(binding, None);
    set_capture_enabled(&mut s, true);
    assert!(capture_enabled(&s));
    set_world_render_active(&mut s, true);
    assert!(world_render_active(&s));
}

#[test]
fn the_frame_s_captures_are_harvested() {
    let mut s = ready();
    begin_capture(&mut s, CaptureKind::Wire, bound(), 1920, true);
    end_capture(&mut s);
    begin_capture(&mut s, CaptureKind::Object, bound(), 1920, true);
    let (frame, binding) = take_frame_capture(&mut s, &HiTiles::new());
    let frame = frame.unwrap();
    assert_eq!(binding, bound());
    assert!(frame.wire && !frame.object && !frame.belt);
    assert_eq!((frame.w, frame.h), (1920, 1080));
    let (frame, binding) = take_frame_capture(&mut s, &HiTiles::new());
    assert!(frame.is_none());
    assert_eq!(binding, None);
    assert_eq!(begin_capture(&mut s, CaptureKind::Wire, bound(), 1920, false), Some(true));
}

#[test]
fn a_layer_is_lost_where_its_target_is_made_anew_and_left_open() {
    let mut s = ready();
    for kind in [CaptureKind::Object, CaptureKind::Elevated] {
        begin_capture(&mut s, kind, bound(), 1920, true);
        end_capture(&mut s);
    }
    let larger = bound().map(|b| Binding { h: b.h + 8, ..b });
    assert_eq!(begin_capture(&mut s, CaptureKind::Object, larger, 1920, true), Some(true));
    let frame = take_frame_capture(&mut s, &HiTiles::new()).0.unwrap();
    assert!(frame.elevated && !frame.object && !frame.belt && !frame.wire);
    assert_eq!(frame.hi_grid, 1);
    assert!(take_frame_capture(&mut s, &HiTiles::new()).0.is_none());
}

#[test]
fn tiles_of_the_sharp_layer_take_turns() {
    assert_eq!(hi_grid_for(1.5f32.to_bits()), 1);
    assert_eq!(hi_grid_for(2.0f32.to_bits()), 1);
    assert_eq!(hi_grid_for(2.5f32.to_bits()), 2);
    let boost = 3.0f32.to_bits();
    let mut s = ready();
    let mut tiles = HiTiles::new();
    let mut slices = Vec::new();
    for _ in 0..5 {
        let w = begin_hi_capture(
            &mut s, &mut tiles, HiKind::Ground, boost, 2, false, bound(), 1920, true, VIEW, 7,
        )
        .unwrap();
        slices.push((w.slice, w.tx, w.ty));
        let back = end_hi_capture(&mut s, (1920, 1080));
        assert_eq!(back.binding, bound());
        assert!(back.viewport);
        assert_eq!(back.scissor, Some((1920, 1080)));
        advance_hi_rotation(&mut s);
    }
    assert_eq!(slices, vec![(0, 0, 0), (1, 1, 0), (2, 0, 1), (3, 1, 1), (0, 0, 0)]);
    assert_eq!(tiles.meta[3].stamp, VIEW);
    assert_eq!(tiles.meta[3].cover, 7);
    assert_eq!(tiles.meta[4].cover, 0);
}

#[test]
fn a_new_grid_forgets_the_old_tiles() {
    let boost = 1.5f32.to_bits();
    let mut s = ready();
    let mut tiles = HiTiles::new();
    begin_hi_capture(&mut s, &mut tiles, HiKind::Object, boost, 1, true, bound(), 1920, true, VIEW, 9);
    assert_eq!(tiles.meta[4].cover, 9);
    end_hi_capture(&mut s, (0, 0));
    begin_hi_capture(&mut s, &mut tiles, HiKind::Object, boost, 2, false, bound(), 1920, false, VIEW, 5);
    assert_eq!(tiles.meta[4].cover, 0);
    assert_eq!(tiles.meta[0].cover, 5);
}

#[test]
fn the_live_tile_is_for_objects() {
    let boost = 1.5f32.to_bits();
    let mut s = ready();
    let mut tiles = HiTiles::new();
    let w = begin_hi_capture(
        &mut s, &mut tiles, HiKind::Belt, boost, 1, true, bound(), 1920, true, VIEW, 1,
    );
    assert!(w.is_none());
    let w = begin_hi_capture(
        &mut s, &mut tiles, HiKind::Object, boost, 1, true, bound(), 1920, true, VIEW, 1,
    )
    .unwrap();
    assert_eq!(w.slice, 4);
    assert_eq!(
        ensure_hi_slot(&s, HiKind::Belt, 1.0f32.to_bits(), 1, &bound(), 1920),
        TargetNeed::Refused
    );
    assert_eq!(substitute_scissor(&s, 0, 1920), Some((3840, 2160)));
    assert_eq!(substitute_scissor(&s, 10, 1930), None);
    assert_eq!(substitute_scissor(&Capture::new(), 0, 1920), None);
}

#[test]
fn only_the_world_s_target_is_redirected() {
    let mut s = ready();
    assert!(!redirects(&s, 1, 11, None));
    begin_capture(&mut s, CaptureKind::Object, bound(), 1920, true);
    assert!(redirects(&s, 1, 11, None));
    assert!(redirects(&s, 1, 99, Some(12)));
    assert!(!redirects(&s, 1, 99, Some(14)));
    assert!(!redirects(&s, 0, 11, None));
    assert_eq!(redirect_views(&vec![1, 2, 3], 9), vec![9, 2, 3, 0, 0, 0, 0, 0]);
}

const FITS: Fit = Fit {
    too_large: false,
    off_screen: false,
    foot_far: false,
    foot_beside: false,
    banner: false,
    in_live: false,
    tx: 0,
    ty: 0,
    depth: 0,
};

#[test]
fn batches_are_drafted_entity_by_entity() {
    let mut player = part(0, 0, 0, 4);
    player.player = true;
    let rects = || vec![player, part(5, 0, 1, 6), part(300, 0, 3, 0), part(310, 0, 9, 0)];
    let batches = vec![
        Batch { usable: false, fresh: true, rects: rects() },
        Batch { usable: true, fresh: true, rects: rects() },
        Batch { usable: true, fresh: false, rects: rects() },
    ];
    let drafts = draft_quads(&batches, false, true);
    assert_eq!(drafts.len(), 6);
    assert!(matches!(drafts[0], Draft::Group(g, GroupAnchor::LowerEdge) if g.grp == 4));
    assert!(matches!(drafts[1], Draft::Group(g, GroupAnchor::MapPosition) if g.grp == 6));
    assert_eq!(drafts[2], Draft::Part(part(300, 0, 3, 0), 9, 310));
    assert_eq!(drafts[2], drafts[4]);
    let seen = draft_quads(&batches, true, true);
    assert_eq!(seen.len(), 5);
    assert!(matches!(seen[0], Draft::Group(g, _) if g.grp == 6));
}

#[test]
fn drafts_that_fit_become_quads() {
    let mut fly = part(0, 0, 0, 4);
    fly.fly = true;
    let mut train = part(0, 0, 0, 5);
    train.flat = true;
    let mut panel = part(900, 0, 0, 0);
    panel.elevated_flat = true;
    let drafts = draft_quads(
        &vec![Batch { usable: true, fresh: true, rects: vec![fly, train, panel, part(9, 9, 1, 0)] }],
        false,
        true,
    );
    let covered = vec![false, true, false, false, true];
    let mut fits = vec![FITS; 4];
    fits[0].in_live = true;
    fits[1].in_live = true;
    fits[1].foot_far = true;
    fits[1].depth = 7;
    fits[2].tx = 1;
    fits[2].depth = 3;
    fits[3].depth = 3;
    let q = build_billboards(&drafts, &fits, true, 2, &covered);
    assert_eq!(q.iter().map(|q| q.draft).collect::<Vec<_>>(), vec![1, 2, 3, 0]);
    assert_eq!((q[0].tile, q[0].flat, q[0].lift), (None, true, Lift::Ground));
    assert_eq!((q[1].tile, q[1].flat, q[1].lift), (Some(1), false, Lift::Platform));
    assert_eq!((q[2].tile, q[2].lift), (None, Lift::Ground));
    assert_eq!((q[3].tile, q[3].lift), (Some(4), Lift::Robot));
    fits[0].foot_beside = true;
    fits[1].too_large = true;
    fits[2].banner = true;
    fits[3].off_screen = true;
    assert!(build_billboards(&drafts, &fits, true, 2, &covered).is_empty());
}
