use factorio_3d::camera::{
    fps_mode, game_hwnd, get, init, poll, scroll_hook_installed, scroll_wndproc, set_game_hwnd,
    wants_scroll_hook, CameraState, Input, Point, ZoomChange, WM_MOUSEWHEEL,
};
use factorio_3d::frame::{
    base_size, calibrate_zoom_offset, center_action, confirm_zoom_offset, create_renderer,
    end_frame, engaged, frame_count, publish_rect, rp_is_main, set_base_size, view_rect_tiles,
    zoom_offset, Calibration, CenterAction, FrameState, ViewRect,
};
use factorio_3d::hooks::{install, Flavor, InstallStep};
use factorio_3d::picking::{clear, set_transform, unwarps, Picking};
use factorio_3d::sky::{
    classify_surface, detect_planet, is_new_surface, planet, sky_day_night, Sky,
};

fn camera() -> CameraState {
    let mut s = CameraState::new();
    init(&mut s);
    s
}

fn idle() -> Input {
    Input {
        shift: false,
        ctrl: false,
        alt: false,
        rmb: false,
        mmb: false,
        x: 0,
        y: 0,
        foreground: true,
        center: None,
        zoomed_in: false,
    }
}

fn wheel(clicks: i16) -> u64 {
    ((clicks * 120) as u16 as u64) << 16
}

#[test]
fn starts_top_down() {
    assert_eq!(get(&CameraState::new()), (0, 900));
    assert_eq!(get(&camera()), (0, 900));
}

#[test]
fn a_drag_turns_the_camera() {
    let mut s = camera();
    poll(&mut s, &Input { mmb: true, x: 100, y: 100, ..idle() });
    assert_eq!(get(&s), (0, 900));
    poll(&mut s, &Input { mmb: true, x: 110, y: 60, ..idle() });
    assert_eq!(get(&s), (3570, 780));
    poll(&mut s, &Input { shift: true, rmb: true, x: 100, y: 60, ..idle() });
    assert_eq!(get(&s), (0, 780));
    poll(&mut s, &Input { rmb: true, x: 500, y: 500, ..idle() });
    poll(&mut s, &Input { mmb: true, x: 0, y: 0, ..idle() });
    assert_eq!(get(&s), (0, 780));
}

#[test]
fn the_pitch_stays_within_its_bounds() {
    let mut s = camera();
    poll(&mut s, &Input { mmb: true, y: 0, ..idle() });
    poll(&mut s, &Input { mmb: true, y: -1000, ..idle() });
    assert_eq!(get(&s), (0, 180));
    poll(&mut s, &Input { mmb: true, y: 1000, ..idle() });
    assert_eq!(get(&s), (0, 900));
}

#[test]
fn a_turn_and_back_restores_the_yaw() {
    let mut s = camera();
    poll(&mut s, &Input { mmb: true, x: 0, ..idle() });
    poll(&mut s, &Input { mmb: true, x: 1234, ..idle() });
    assert_eq!(get(&s).0, (-3702i32).rem_euclid(3600));
    poll(&mut s, &Input { mmb: true, x: 0, ..idle() });
    assert_eq!(get(&s).0, 0);
}

#[test]
fn the_reset_fires_once_per_press() {
    let mut s = camera();
    poll(&mut s, &Input { mmb: true, y: 0, ..idle() });
    poll(&mut s, &Input { mmb: true, y: -10, ..idle() });
    let press = Input { alt: true, rmb: true, ..idle() };
    assert_eq!(poll(&mut s, &press).zoom, ZoomChange::Reset);
    assert_eq!(get(&s), (0, 900));
    assert_eq!(poll(&mut s, &press).zoom, ZoomChange::Keep);
    poll(&mut s, &idle());
    assert_eq!(poll(&mut s, &press).zoom, ZoomChange::Reset);
}

#[test]
fn scrolling_enters_and_leaves_first_person() {
    let mut s = camera();
    set_game_hwnd(&mut s, 77);
    assert_eq!(game_hwnd(&s), 77);
    assert!(!scroll_wndproc(&mut s, WM_MOUSEWHEEL, wheel(1)));
    let a = poll(&mut s, &Input { shift: true, ..idle() });
    assert_eq!(a.zoom, ZoomChange::Scroll(120));
    scroll_wndproc(&mut s, WM_MOUSEWHEEL, wheel(1));
    assert_eq!(poll(&mut s, &idle()).zoom, ZoomChange::Keep);
    assert!(!fps_mode(&s));
    scroll_wndproc(&mut s, WM_MOUSEWHEEL, wheel(1));
    let a = poll(&mut s, &Input { shift: true, zoomed_in: true, ..idle() });
    assert_eq!(a.zoom, ZoomChange::Keep);
    assert!(fps_mode(&s));
    assert_eq!(get(&s), (0, 600));
    let look = Input { x: 110, y: 300, center: Some(Point { x: 100, y: 100 }), ..idle() };
    let a = poll(&mut s, &look);
    assert!(a.recenter);
    assert_eq!(get(&s), (3570, 1100));
    assert!(!poll(&mut s, &Input { ctrl: true, ..look }).recenter);
    assert!(scroll_wndproc(&mut s, WM_MOUSEWHEEL, wheel(-1)));
    assert!(!scroll_wndproc(&mut s, 0x0200, wheel(-1)));
    let a = poll(&mut s, &Input { x: 100, y: 100, ..look });
    assert_eq!(a.zoom, ZoomChange::Reset);
    assert!(!fps_mode(&s));
    assert_eq!(get(&s), (3570, 900));
}

#[test]
fn first_person_lasts_from_an_entry_to_the_next_exit() {
    let mut s = camera();
    let zoomed = Input { shift: true, zoomed_in: true, ..idle() };
    for (clicks, on) in [(-1, false), (1, true), (1, true), (-1, false), (-1, false), (1, true)] {
        scroll_wndproc(&mut s, WM_MOUSEWHEEL, wheel(clicks));
        poll(&mut s, &zoomed);
        assert_eq!(fps_mode(&s), on);
        poll(&mut s, &idle());
        assert_eq!(fps_mode(&s), on);
    }
}

#[test]
fn the_scroll_hook_waits_for_the_window() {
    let mut s = camera();
    assert!(!wants_scroll_hook(&s));
    set_game_hwnd(&mut s, 5);
    assert!(wants_scroll_hook(&s));
    scroll_hook_installed(&mut s, 0);
    assert!(wants_scroll_hook(&s));
    scroll_hook_installed(&mut s, 9);
    assert!(!wants_scroll_hook(&s));
}

#[test]
fn the_main_view_publishes_its_rect() {
    let mut s = FrameState::new();
    assert!(create_renderer(&mut s));
    assert!(!create_renderer(&mut s));
    set_base_size(&mut s, 1920, 1080);
    assert_eq!(base_size(&s), (1920, 1080));
    assert!(rp_is_main(&s, 960));
    assert!(!rp_is_main(&s, 959));
    publish_rect(&mut s, 1920, -100, -50, 300, 250);
    let want = ViewRect { left: -100, top: -50, span_x: 400, span_y: 300 };
    assert_eq!(view_rect_tiles(&s), want);
    publish_rect(&mut s, 256, 0, 0, 512, 512);
    publish_rect(&mut s, 1920, 0, 0, 25, 512);
    assert_eq!(view_rect_tiles(&s), want);
    publish_rect(&mut s, 1920, 0, 0, 26, 26);
    assert_eq!(view_rect_tiles(&s).span_x, 26);
}

#[test]
fn the_window_is_nudged_at_two_frames() {
    let mut s = FrameState::new();
    set_base_size(&mut s, 1920, 1080);
    let mut nudges = Vec::new();
    for _ in 0..1500 {
        let frame = frame_count(&s);
        if let Some(size) = end_frame(&mut s) {
            nudges.push((frame, size));
        }
    }
    assert_eq!(nudges, vec![(300, (1920, 1080)), (1200, (1920, 1080))]);
    assert_eq!(frame_count(&s), 1500);
}

#[test]
fn the_zoom_offset_is_searched_and_confirmed() {
    let mut s = FrameState::new();
    set_base_size(&mut s, 1000, 1000);
    assert_eq!(center_action(&s, true, 1000), CenterAction::Calibrate);
    assert_eq!(center_action(&s, false, 1000), CenterAction::Plain);
    assert_eq!(center_action(&s, true, 100), CenterAction::Plain);
    calibrate_zoom_offset(&mut s, false, &vec![true]);
    assert_eq!(s.calibration, Calibration::Searching);
    calibrate_zoom_offset(&mut s, true, &vec![false, true, false, true]);
    assert_eq!(center_action(&s, true, 1000), CenterAction::Widen);
    assert_eq!(zoom_offset(&mut s), Some(8));
    confirm_zoom_offset(&mut s, true);
    assert_eq!(zoom_offset(&mut s), Some(8));
    confirm_zoom_offset(&mut s, false);
    assert_eq!(zoom_offset(&mut s), Some(24));
    confirm_zoom_offset(&mut s, false);
    assert_eq!(s.calibration, Calibration::Failed);
    assert_eq!(zoom_offset(&mut s), None);
    assert_eq!(center_action(&s, true, 1000), CenterAction::Plain);
}

#[test]
fn the_search_is_given_up_after_many_tries() {
    let mut s = FrameState::new();
    for _ in 0..301 {
        calibrate_zoom_offset(&mut s, true, &vec![false; 4]);
    }
    assert_eq!(s.calibration, Calibration::Searching);
    calibrate_zoom_offset(&mut s, true, &vec![false; 4]);
    assert_eq!(s.calibration, Calibration::Failed);
}

#[test]
fn a_tilted_or_turned_view_is_engaged() {
    assert!(!engaged(0, 900));
    assert!(!engaged(10, 890));
    assert!(engaged(11, 900));
    assert!(engaged(0, 889));
}

#[test]
fn picking_needs_a_known_transform() {
    let mut p = Picking::new();
    assert!(!unwarps(&p, true));
    set_transform(&mut p);
    assert!(unwarps(&p, true));
    assert!(!unwarps(&p, false));
    clear(&mut p);
    assert!(!unwarps(&p, true));
    assert!(p.known);
}

#[test]
fn surfaces_are_told_by_the_names_they_hold() {
    assert_eq!(classify_surface(&b"xx vulcanus".to_vec()), Some(1));
    assert_eq!(classify_surface(&b"fulgora nauvis".to_vec()), Some(2));
    assert_eq!(classify_surface(&b"gleba".to_vec()), Some(3));
    assert_eq!(classify_surface(&b"\0aquilo\0".to_vec()), Some(4));
    assert_eq!(classify_surface(&b"platform nauvis".to_vec()), Some(0));
    assert_eq!(classify_surface(&b"platform-1".to_vec()), Some(5));
    assert_eq!(classify_surface(&b"vulcanu".to_vec()), None);
    assert_eq!(classify_surface(&vec![]), None);
}

#[test]
fn the_planet_stays_until_another_is_seen() {
    let mut s = Sky::new();
    assert!(!is_new_surface(&mut s, 0));
    assert!(is_new_surface(&mut s, 9));
    assert!(!is_new_surface(&mut s, 9));
    detect_planet(&mut s, &b"gleba".to_vec());
    assert_eq!(planet(&s), 3);
    detect_planet(&mut s, &b"?".to_vec());
    assert_eq!(planet(&s), 3);
    assert_eq!(sky_day_night(3), ((10, 20, 16), (3, 7, 6)));
    assert_eq!(sky_day_night(0), ((32, 52, 85), (2, 3, 7)));
    assert_eq!(sky_day_night(5), sky_day_night(0));
}

#[test]
fn the_planet_is_that_of_the_last_new_surface_that_names_one() {
    let mut s = Sky::new();
    assert_eq!(planet(&s), 0);
    let seen: [(u64, &[u8], u8); 6] = [
        (1, b"vulcanus", 1),
        (2, b"cave", 1),
        (2, b"gleba", 1),
        (0, b"gleba", 1),
        (3, b"platform-9", 5),
        (1, b"aquilo", 4),
    ];
    for (surface, name, want) in seen {
        if is_new_surface(&mut s, surface) {
            detect_planet(&mut s, &name.to_vec());
        }
        assert_eq!(planet(&s), want);
    }
}

#[test]
fn only_the_end_of_a_frame_counts_it() {
    let mut s = FrameState::new();
    for n in 0..4u64 {
        assert_eq!(frame_count(&s), n);
        publish_rect(&mut s, 1920, 0, 0, 300, 250);
        calibrate_zoom_offset(&mut s, true, &vec![false, true]);
        zoom_offset(&mut s);
        confirm_zoom_offset(&mut s, true);
        assert_eq!(frame_count(&s), n);
        end_frame(&mut s);
    }
    assert_eq!(frame_count(&s), 4);
}

#[test]
fn a_failed_step_stops_the_installation() {
    let mut step = InstallStep::Renderer;
    let mut steps = Vec::new();
    while step != InstallStep::Done {
        steps.push(step);
        step = install(Flavor::Billboards, step, true);
    }
    assert_eq!(steps[0], InstallStep::Renderer);
    assert!(!steps.contains(&InstallStep::Failed));
    assert_eq!(install(Flavor::Models, InstallStep::Input, false), InstallStep::Failed);
    assert_eq!(install(Flavor::Models, InstallStep::Done, false), InstallStep::Done);
}
