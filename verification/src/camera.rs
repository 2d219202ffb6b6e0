//! The camera and its controls.
//!
//! Shift and the right button, or the middle button alone, turn the camera;
//! shift and the wheel pull it out. Turning the wheel in at the closest zoom
//! enters first person, where the mouse steers, ctrl frees the cursor and
//! turning the wheel out leaves. Alt and the right button reset the view.
//!
//! Angles are in tenths of a degree. The zoom is a float that the renderer
//! keeps; what happens to it is part of what a poll decides.

use vstd::prelude::*;

verus! {

/// Tenths of a degree per pixel of mouse movement.
pub const SENSITIVITY: i64 = 3;

pub const FULL_TURN: i64 = 3600;

pub const TOP_DOWN: i32 = 900;

#[derive(Clone, Copy, PartialEq, Eq, Structural, Debug)]
pub struct Camera {
    /// From 0 up to a full turn.
    pub yaw: i32,
    /// 900 looks straight down.
    pub pitch: i32,
}

#[derive(Clone, Copy, PartialEq, Eq, Structural, Debug)]
pub struct CameraState {
    /// Nothing before the camera is set up.
    pub camera: Option<Camera>,
    pub fps_mode: bool,
    pub last_x: i32,
    pub last_y: i32,
    pub tracking: bool,
    pub scroll: i32,
    pub alt_rmb_down: bool,
    pub hwnd: i64,
    pub scroll_hook: bool,
}

/// A place on the screen.
#[derive(Clone, Copy, PartialEq, Eq, Structural, Debug)]
pub struct Point {
    pub x: i32,
    pub y: i32,
}

/// What is read from keyboard and mouse once a frame.
#[derive(Clone, Copy, PartialEq, Eq, Structural, Debug)]
pub struct Input {
    pub shift: bool,
    pub ctrl: bool,
    pub alt: bool,
    pub rmb: bool,
    pub mmb: bool,
    pub x: i32,
    pub y: i32,
    /// The game's window is in the foreground.
    pub foreground: bool,
    /// The middle of the game's window, where it can be told.
    pub center: Option<Point>,
    /// The zoom is at its closest.
    pub zoomed_in: bool,
}

/// What happens to the zoom.
#[derive(Clone, Copy, PartialEq, Eq, Structural, Debug)]
pub enum ZoomChange {
    Keep,
    /// It is scaled by as many steps of the wheel.
    Scroll(i32),
    /// It goes back to its closest.
    Reset,
}

/// What a poll asks for.
#[derive(Clone, Copy, PartialEq, Eq, Structural, Debug)]
pub struct PollAction {
    pub zoom: ZoomChange,
    /// The cursor is put back to the middle of the window.
    pub recenter: bool,
}

pub open spec fn clamped(v: int, lo: int, hi: int) -> int {
    if v < lo {
        lo
    } else if v > hi {
        hi
    } else {
        v
    }
}

/// The camera after a movement of the mouse, its pitch held between two bounds.
pub open spec fn turned(c: Camera, dx: int, dy: int, lo: int, hi: int) -> Camera {
    Camera {
        yaw: ((c.yaw - 3 * dx) % 3600) as i32,
        pitch: clamped(c.pitch + 3 * dy, lo, hi) as i32,
    }
}

pub open spec fn with_pitch(c: Camera, lo: int, hi: int) -> Camera {
    Camera { pitch: clamped(c.pitch as int, lo, hi) as i32, ..c }
}

impl CameraState {
    /// The yaw is less than a full turn; outside first person the pitch is from
    /// 18 to 90 degrees, in first person from 5 to 110.
    pub open spec fn wf(&self) -> bool {
        self.camera matches Some(c) ==> {
            &&& 0 <= c.yaw < 3600
            &&& 50 <= c.pitch <= 1100
            &&& !self.fps_mode ==> 180 <= c.pitch <= 900
        }
    }

    pub fn new() -> (r: CameraState)
        ensures
            r.wf(),
            r == (CameraState {
                camera: None,
                fps_mode: false,
                last_x: 0,
                last_y: 0,
                tracking: false,
                scroll: 0,
                alt_rmb_down: false,
                hwnd: 0,
                scroll_hook: false,
            }),
    {
        CameraState {
            camera: None,
            fps_mode: false,
            last_x: 0,
            last_y: 0,
            tracking: false,
            scroll: 0,
            alt_rmb_down: false,
            hwnd: 0,
            scroll_hook: false,
        }
    }
}

/// Sets the camera up, looking straight down.
pub fn init(s: &mut CameraState)
    requires
        old(s).wf(),
    ensures
        final(s).wf(),
        *final(s) == (CameraState { camera: Some(Camera { yaw: 0, pitch: 900 }), ..*old(s) }),
{
    s.camera = Some(Camera { yaw: 0, pitch: TOP_DOWN });
}

pub fn fps_mode(s: &CameraState) -> (r: bool)
    ensures
        r == s.fps_mode,
{
    s.fps_mode
}

/// The yaw and the pitch; straight down before the camera is set up.
pub fn get(s: &CameraState) -> (r: (i32, i32))
    ensures
        r == match s.camera {
            Some(c) => (c.yaw, c.pitch),
            None => (0i32, 900i32),
        },
{
    match s.camera {
        Some(c) => (c.yaw, c.pitch),
        None => (0, TOP_DOWN),
    }
}

/// Takes the handle of the game's window.
pub fn set_game_hwnd(s: &mut CameraState, hwnd: i64)
    requires
        old(s).wf(),
    ensures
        final(s).wf(),
        *final(s) == (CameraState { hwnd, ..*old(s) }),
{
    s.hwnd = hwnd;
}

pub fn game_hwnd(s: &CameraState) -> (r: i64)
    ensures
        r == s.hwnd,
{
    s.hwnd
}

/// Whether the window's messages have yet to be listened to.
pub fn wants_scroll_hook(s: &CameraState) -> (r: bool)
    ensures
        r == (!s.scroll_hook && s.hwnd != 0),
{
    !s.scroll_hook && s.hwnd != 0
}

/// Takes the window procedure that was replaced; 0 stands for a failure, after
/// which it is tried again.
pub fn scroll_hook_installed(s: &mut CameraState, replaced: i64)
    requires
        old(s).wf(),
    ensures
        final(s).wf(),
        *final(s) == (CameraState { scroll_hook: old(s).scroll_hook || replaced != 0, ..*old(s) }),
{
    if replaced != 0 {
        s.scroll_hook = true;
    }
}

/// The message of the mouse wheel.
pub const WM_MOUSEWHEEL: u32 = 0x020A;

/// How far the wheel was turned: the second 16 bits of the parameter, signed.
pub open spec fn wheel_delta(wparam: u64) -> int {
    let w = wparam / 0x1_0000 % 0x1_0000;
    if w >= 0x8000 {
        w - 0x1_0000
    } else {
        w as int
    }
}

pub open spec fn wrap32(n: int) -> int {
    if n > i32::MAX {
        n - 0x1_0000_0000
    } else if n < i32::MIN {
        n + 0x1_0000_0000
    } else {
        n
    }
}

/// Takes a message of the window. The wheel is counted; in first person it is
/// kept from the game, which is what the result says.
pub fn scroll_wndproc(s: &mut CameraState, msg: u32, wparam: u64) -> (r: bool)
    requires
        old(s).wf(),
    ensures
        final(s).wf(),
        r == (msg == WM_MOUSEWHEEL && old(s).fps_mode),
        *final(s) == if msg == WM_MOUSEWHEEL {
            (CameraState { scroll: wrap32(old(s).scroll + wheel_delta(wparam)) as i32, ..*old(s) })
        } else {
            *old(s)
        },
{
    if msg == WM_MOUSEWHEEL {
        let w: u64 = wparam / 0x1_0000 % 0x1_0000;
        let delta: i32 = if w >= 0x8000 {
            (w as i64 - 0x1_0000) as i32
        } else {
            w as i32
        };
        s.scroll = s.scroll.wrapping_add(delta);
        return s.fps_mode;
    }
    false
}

fn turn(c: Camera, dx: i64, dy: i64, lo: i32, hi: i32) -> (r: Camera)
    requires
        -0x2_0000_0000 <= dx <= 0x2_0000_0000,
        -0x2_0000_0000 <= dy <= 0x2_0000_0000,
        lo <= hi,
    ensures
        r == turned(c, dx as int, dy as int, lo as int, hi as int),
        0 <= r.yaw < 3600,
        lo <= r.pitch <= hi,
{
    let y: i64 = c.yaw as i64 - SENSITIVITY * dx;
    // a multiple of a full turn that makes the angle positive
    let up: i64 = y + 3600 * 0x1_0000_0000;
    let yaw: i64 = up % FULL_TURN;
    assert(yaw == (y as int) % 3600);
    let p: i64 = c.pitch as i64 + SENSITIVITY * dy;
    let pitch: i64 = if p < lo as i64 {
        lo as i64
    } else if p > hi as i64 {
        hi as i64
    } else {
        p
    };
    Camera { yaw: yaw as i32, pitch: pitch as i32 }
}

fn hold_pitch(c: Camera, lo: i32, hi: i32) -> (r: Camera)
    requires
        lo <= hi,
    ensures
        r == with_pitch(c, lo as int, hi as int),
{
    let pitch: i32 = if c.pitch < lo {
        lo
    } else if c.pitch > hi {
        hi
    } else {
        c.pitch
    };
    Camera { yaw: c.yaw, pitch }
}

/// The state after the view was reset: straight down, and out of first person.
pub open spec fn reset_state(s: CameraState) -> CameraState {
    CameraState {
        fps_mode: false,
        tracking: false,
        camera: match s.camera {
            Some(c) => Some(Camera { yaw: 0, pitch: 900 }),
            None => None,
        },
        ..s
    }
}

fn reset_view(s: &mut CameraState)
    ensures
        *final(s) == reset_state(*old(s)),
{
    s.fps_mode = false;
    s.tracking = false;
    if s.camera.is_some() {
        s.camera = Some(Camera { yaw: 0, pitch: TOP_DOWN });
    }
}

/// In first person the mouse steers: it does where ctrl is up and the window is
/// there and in front.
pub open spec fn steers(s: CameraState, i: Input) -> bool {
    !i.ctrl && i.foreground && s.hwnd != 0 && i.center is Some
}

pub open spec fn off_center(i: Input) -> bool {
    i.x != i.center->0.x || i.y != i.center->0.y
}

/// The camera after the mouse has steered in first person.
pub open spec fn steered(s: CameraState, i: Input) -> Option<Camera> {
    match s.camera {
        Some(c) => if steers(s, i) && off_center(i) {
            Some(turned(c, i.x - i.center->0.x, i.y - i.center->0.y, 50, 1100))
        } else {
            Some(c)
        },
        None => None,
    }
}

/// The state after a frame in first person.
pub open spec fn first_person(s: CameraState, i: Input) -> CameraState {
    let c = steered(s, i);
    let leaves = s.scroll < 0;
    CameraState {
        tracking: false,
        scroll: 0,
        fps_mode: !leaves && s.fps_mode,
        camera: match c {
            Some(c) => Some(
                if leaves {
                    with_pitch(c, 180, 900)
                } else {
                    c
                },
            ),
            None => None,
        },
        ..s
    }
}

fn poll_first_person(s: &mut CameraState, i: &Input) -> (r: PollAction)
    requires
        old(s).wf(),
        old(s).fps_mode,
    ensures
        final(s).wf(),
        *final(s) == first_person(*old(s), *i),
        r.recenter == (steers(*old(s), *i) && off_center(*i)),
        r.zoom == if old(s).scroll < 0 && old(s).camera is Some {
            ZoomChange::Reset
        } else {
            ZoomChange::Keep
        },
{
    s.tracking = false;
    let mut recenter: bool = false;
    if !i.ctrl && i.foreground && s.hwnd != 0 {
        match i.center {
            Some(m) => {
                let dx: i64 = i.x as i64 - m.x as i64;
                let dy: i64 = i.y as i64 - m.y as i64;
                if dx != 0 || dy != 0 {
                    match s.camera {
                        Some(c) => {
                            s.camera = Some(turn(c, dx, dy, 50, 1100));
                        },
                        None => {},
                    }
                    recenter = true;
                }
            },
            None => {},
        }
    }
    let scroll: i32 = s.scroll;
    s.scroll = 0;
    let mut zoom: ZoomChange = ZoomChange::Keep;
    if scroll < 0 {
        s.fps_mode = false;
        match s.camera {
            Some(c) => {
                s.camera = Some(hold_pitch(c, 180, 900));
                zoom = ZoomChange::Reset;
            },
            None => {},
        }
    }
    PollAction { zoom, recenter }
}

/// Dragging turns the camera.
pub open spec fn drags(i: Input) -> bool {
    (i.shift && i.rmb) || i.mmb
}

/// The camera after the mouse was dragged.
pub open spec fn dragged(s: CameraState, i: Input) -> Option<Camera> {
    match s.camera {
        Some(c) => if drags(i) && s.tracking && (i.x != s.last_x || i.y != s.last_y) {
            Some(turned(c, i.x - s.last_x, i.y - s.last_y, 180, 900))
        } else {
            Some(c)
        },
        None => None,
    }
}

/// Shift and the wheel work on the zoom.
pub open spec fn zooms(s: CameraState, i: Input) -> bool {
    s.scroll != 0 && i.shift && s.camera is Some
}

/// Turning the wheel in at the closest zoom enters first person.
pub open spec fn enters(s: CameraState, i: Input) -> bool {
    zooms(s, i) && s.scroll > 0 && i.zoomed_in
}

/// The state after a frame outside first person.
pub open spec fn third_person(s: CameraState, i: Input) -> CameraState {
    CameraState {
        camera: match dragged(s, i) {
            Some(c) => Some(
                if enters(s, i) {
                    with_pitch(c, 300, 600)
                } else {
                    c
                },
            ),
            None => None,
        },
        tracking: drags(i),
        last_x: if drags(i) {
            i.x
        } else {
            s.last_x
        },
        last_y: if drags(i) {
            i.y
        } else {
            s.last_y
        },
        scroll: 0,
        fps_mode: s.fps_mode || enters(s, i),
        ..s
    }
}

fn poll_third_person(s: &mut CameraState, i: &Input) -> (r: PollAction)
    requires
        old(s).wf(),
        !old(s).fps_mode,
    ensures
        final(s).wf(),
        *final(s) == third_person(*old(s), *i),
        !r.recenter,
        r.zoom == if zooms(*old(s), *i) && !enters(*old(s), *i) {
            ZoomChange::Scroll(old(s).scroll)
        } else {
            ZoomChange::Keep
        },
{
    if (i.shift && i.rmb) || i.mmb {
        if s.tracking {
            let dx: i64 = i.x as i64 - s.last_x as i64;
            let dy: i64 = i.y as i64 - s.last_y as i64;
            if dx != 0 || dy != 0 {
                match s.camera {
                    Some(c) => {
                        s.camera = Some(turn(c, dx, dy, 180, 900));
                    },
                    None => {},
                }
            }
        } else {
            s.tracking = true;
        }
        s.last_x = i.x;
        s.last_y = i.y;
    } else {
        s.tracking = false;
    }
    let scroll: i32 = s.scroll;
    s.scroll = 0;
    let mut zoom: ZoomChange = ZoomChange::Keep;
    if scroll != 0 && i.shift {
        match s.camera {
            Some(c) => {
                if scroll > 0 && i.zoomed_in {
                    s.fps_mode = true;
                    s.camera = Some(hold_pitch(c, 300, 600));
                } else {
                    zoom = ZoomChange::Scroll(scroll);
                }
            },
            None => {},
        }
    }
    PollAction { zoom, recenter: false }
}

/// The click that resets the view: it counts once, however long it is held.
pub open spec fn resets(s: CameraState, i: Input) -> bool {
    i.alt && i.rmb && !s.alt_rmb_down
}

/// The state after a frame.
pub open spec fn polled(s: CameraState, i: Input) -> CameraState {
    if resets(s, i) {
        CameraState { alt_rmb_down: true, ..reset_state(s) }
    } else {
        let t = CameraState { alt_rmb_down: i.alt && i.rmb, ..s };
        if t.fps_mode {
            first_person(t, i)
        } else {
            third_person(t, i)
        }
    }
}

/// What a frame asks for.
pub open spec fn poll_action(s: CameraState, i: Input) -> PollAction {
    if resets(s, i) {
        PollAction {
            zoom: if s.camera is Some {
                ZoomChange::Reset
            } else {
                ZoomChange::Keep
            },
            recenter: false,
        }
    } else if s.fps_mode {
        PollAction {
            zoom: if s.scroll < 0 && s.camera is Some {
                ZoomChange::Reset
            } else {
                ZoomChange::Keep
            },
            recenter: steers(s, i) && off_center(i),
        }
    } else {
        PollAction {
            zoom: if zooms(s, i) && !enters(s, i) {
                ZoomChange::Scroll(s.scroll)
            } else {
                ZoomChange::Keep
            },
            recenter: false,
        }
    }
}

/// Takes the input of a frame.
pub fn poll(s: &mut CameraState, i: &Input) -> (r: PollAction)
    requires
        old(s).wf(),
    ensures
        final(s).wf(),
        *final(s) == polled(*old(s), *i),
        r == poll_action(*old(s), *i),
{
    let alt_rmb: bool = i.alt && i.rmb;
    if alt_rmb && !s.alt_rmb_down {
        let there: bool = s.camera.is_some();
        s.alt_rmb_down = true;
        reset_view(s);
        let zoom: ZoomChange = if there {
            ZoomChange::Reset
        } else {
            ZoomChange::Keep
        };
        return PollAction { zoom, recenter: false };
    }
    s.alt_rmb_down = alt_rmb;
    if s.fps_mode {
        poll_first_person(s, i)
    } else {
        poll_third_person(s, i)
    }
}

/// Whatever is pressed, the angles stay within their bounds.
pub proof fn lemma_angles_stay_in_bounds(s: CameraState, i: Input)
    requires
        s.wf(),
    ensures
        polled(s, i).wf(),
{
}

/// A click that resets the view shows it straight down, from whatever state, and
/// holding it does not reset again.
pub proof fn lemma_reset_once(s: CameraState, i: Input, j: Input)
    requires
        s.wf(),
        resets(s, i),
        j.alt && j.rmb,
    ensures
        !polled(s, i).fps_mode,
        s.camera is Some ==> polled(s, i).camera == Some(Camera { yaw: 0, pitch: 900 }),
        !resets(polled(s, i), j),
{
}

/// A drag that comes back to where it began turns the camera back.
pub proof fn lemma_yaw_turns_back(c: Camera, dx: int, dy: int)
    requires
        0 <= c.yaw < 3600,
    ensures
        turned(turned(c, dx, dy, 180, 900), -dx, -dy, 180, 900).yaw == c.yaw,
{
    let a = (c.yaw - 3 * dx) % 3600;
    assert((a + 3 * dx) % 3600 == c.yaw % 3600) by {
        vstd::arithmetic::div_mod::lemma_add_mod_noop(c.yaw - 3 * dx, 3 * dx, 3600);
        vstd::arithmetic::div_mod::lemma_mod_twice(c.yaw - 3 * dx, 3600);
        vstd::arithmetic::div_mod::lemma_add_mod_noop(a, 3 * dx, 3600);
    }
    vstd::arithmetic::div_mod::lemma_small_mod(c.yaw as nat, 3600);
}

/// Shift and the wheel zoom: outside first person, the wheel that was turned out, or
/// in where the zoom is not at its closest, scales the zoom by as much as it was
/// turned. Turned in at the closest zoom it enters first person instead, and without
/// shift it does nothing to the view. Whatever it was turned counts once.
pub proof fn lemma_wheel_zooms(s: CameraState, i: Input)
    requires
        s.camera is Some,
        !s.fps_mode,
        !(i.alt && i.rmb && !s.alt_rmb_down),
    ensures
        i.shift && s.scroll < 0 ==> poll_action(s, i).zoom == ZoomChange::Scroll(s.scroll) && !polled(
            s,
            i,
        ).fps_mode,
        i.shift && s.scroll > 0 && !i.zoomed_in ==> poll_action(s, i).zoom == ZoomChange::Scroll(s.scroll)
            && !polled(s, i).fps_mode,
        i.shift && s.scroll > 0 && i.zoomed_in ==> poll_action(s, i).zoom == ZoomChange::Keep && polled(
            s,
            i,
        ).fps_mode && 300 <= polled(s, i).camera->0.pitch <= 600,
        !i.shift || s.scroll == 0 ==> poll_action(s, i).zoom == ZoomChange::Keep && !polled(s, i).fps_mode,
        !poll_action(s, i).recenter,
        polled(s, i).scroll == 0,
{
}

/// Dragging turns the camera: with the middle button, or with shift and the right
/// one. Three tenths of a degree for each pixel since the last frame of the drag:
/// to the right turns it left about the map, down tilts it toward straight down, and
/// never past it nor below eighteen degrees. The first frame of a drag only takes
/// hold, and without a button nothing turns.
pub proof fn lemma_drag_turns(s: CameraState, i: Input)
    requires
        s.wf(),
        s.camera is Some,
        !s.fps_mode,
        !(i.alt && i.rmb && !s.alt_rmb_down),
        !(i.shift && s.scroll > 0 && i.zoomed_in),
    ensures
        ({
            let held = i.mmb || (i.shift && i.rmb);
            let c = s.camera->0;
            let t = polled(s, i);
            let dx = i.x - s.last_x;
            let tilt = c.pitch + 3 * (i.y - s.last_y);
            &&& t.tracking == held
            &&& held ==> t.last_x == i.x && t.last_y == i.y
            &&& !held || !s.tracking ==> t.camera == s.camera
            &&& held && s.tracking ==> {
                &&& t.camera is Some
                &&& (t.camera->0.yaw + 3 * dx - c.yaw) % 3600 == 0
                &&& 180 <= tilt <= 900 ==> t.camera->0.pitch == tilt
                &&& tilt < 180 ==> t.camera->0.pitch == 180
                &&& tilt > 900 ==> t.camera->0.pitch == 900
            }
        }),
{
    let c = s.camera->0;
    let dx = i.x - s.last_x;
    if (i.mmb || (i.shift && i.rmb)) && s.tracking {
        if i.x != s.last_x || i.y != s.last_y {
            lemma_turned_back(c.yaw as int, 3 * dx);
        }
    }
}

/// Taking off what was turned leads back, up to whole turns.
proof fn lemma_turned_back(yaw: int, by: int)
    ensures
        ((yaw - by) % 3600 + by - yaw) % 3600 == 0,
{
    let v = yaw - by;
    vstd::arithmetic::div_mod::lemma_fundamental_div_mod(v, 3600);
    vstd::arithmetic::div_mod::lemma_mod_multiples_basic(-(v / 3600), 3600);
    assert(v % 3600 - v == -(v / 3600) * 3600) by (nonlinear_arith)
        requires
            v == 3600 * (v / 3600) + v % 3600,
    ;
}

/// In first person the mouse looks around from the middle of the window, freely
/// where ctrl is up and the window is in front, and is put back there; turning the
/// wheel out leaves, with the zoom at its closest and a pitch that suits the view
/// from above. Nothing else leaves.
pub proof fn lemma_looking_around(s: CameraState, i: Input)
    requires
        s.wf(),
        s.camera is Some,
        s.fps_mode,
        !(i.alt && i.rmb && !s.alt_rmb_down),
    ensures
        ({
            let c = s.camera->0;
            let t = polled(s, i);
            let a = poll_action(s, i);
            let free = !i.ctrl && i.foreground && s.hwnd != 0 && i.center is Some;
            let dx = i.x - i.center->0.x;
            let dy = i.y - i.center->0.y;
            let tilt = c.pitch + 3 * dy;
            &&& a.recenter == (free && (dx != 0 || dy != 0))
            &&& t.fps_mode == (s.scroll >= 0)
            &&& a.zoom == if s.scroll < 0 {
                ZoomChange::Reset
            } else {
                ZoomChange::Keep
            }
            &&& t.scroll == 0
            &&& !t.tracking
            &&& s.scroll >= 0 && !free ==> t.camera == s.camera
            &&& s.scroll >= 0 && free ==> {
                &&& (t.camera->0.yaw + 3 * dx - c.yaw) % 3600 == 0
                &&& 50 <= tilt <= 1100 ==> t.camera->0.pitch == tilt
                &&& tilt < 50 ==> t.camera->0.pitch == 50
                &&& tilt > 1100 ==> t.camera->0.pitch == 1100
            }
            &&& s.scroll < 0 && !free && c.pitch > 900 ==> t.camera->0.pitch == 900
            &&& s.scroll < 0 && !free && c.pitch < 180 ==> t.camera->0.pitch == 180
            &&& s.scroll < 0 && !free && 180 <= c.pitch <= 900 ==> t.camera == s.camera
        }),
{
    let c = s.camera->0;
    if i.center is Some {
        lemma_turned_back(c.yaw as int, 3 * (i.x - i.center->0.x));
    }
}

/// Alt and the right button, freshly pressed, put the view back: straight down, at
/// the closest zoom, out of first person and without a drag.
pub proof fn lemma_reset_shows_plain_view(s: CameraState, i: Input)
    requires
        s.camera is Some,
        i.alt,
        i.rmb,
        !s.alt_rmb_down,
    ensures
        polled(s, i).camera == Some(Camera { yaw: 0, pitch: 900 }),
        poll_action(s, i) == (PollAction { zoom: ZoomChange::Reset, recenter: false }),
        !polled(s, i).fps_mode,
        !polled(s, i).tracking,
        polled(s, i).alt_rmb_down,
{
}

/// The button is remembered as it is held, so that the next press is a fresh one.
pub proof fn lemma_press_is_remembered(s: CameraState, i: Input)
    ensures
        polled(s, i).alt_rmb_down == (i.alt && i.rmb),
        polled(s, i).hwnd == s.hwnd,
        polled(s, i).scroll_hook == s.scroll_hook,
        polled(s, i).camera is Some == s.camera is Some,
{
}

/// What happens to the camera.
pub ghost enum Event {
    SetUp,
    Poll(Input),
    /// A message of the window.
    Message(u32, u64),
    Window(i64),
    HookInstalled(i64),
}

/// The state after an event.
pub open spec fn happened(s: CameraState, e: Event) -> CameraState {
    match e {
        Event::SetUp => CameraState { camera: Some(Camera { yaw: 0, pitch: 900 }), ..s },
        Event::Poll(i) => polled(s, i),
        Event::Message(msg, wparam) => if msg == WM_MOUSEWHEEL {
            CameraState { scroll: wrap32(s.scroll + wheel_delta(wparam)) as i32, ..s }
        } else {
            s
        },
        Event::Window(hwnd) => CameraState { hwnd, ..s },
        Event::HookInstalled(replaced) => CameraState {
            scroll_hook: s.scroll_hook || replaced != 0,
            ..s
        },
    }
}

/// The state after events.
pub open spec fn after(s: CameraState, h: Seq<Event>) -> CameraState
    decreases h.len(),
{
    if h.len() == 0 {
        s
    } else {
        happened(after(s, h.drop_last()), h.last())
    }
}

/// An event enters first person: a frame outside it in which shift is held and the
/// wheel was turned in at the closest zoom.
pub open spec fn entry(s: CameraState, e: Event) -> bool {
    e matches Event::Poll(i) && !resets(s, i) && !s.fps_mode && enters(s, i)
}

/// An event leaves first person: a frame in it before which the wheel was turned
/// out, or a fresh click that resets the view.
pub open spec fn exit(s: CameraState, e: Event) -> bool {
    e matches Event::Poll(i) && (resets(s, i) || (s.fps_mode && s.scroll < 0))
}

/// The event at a place enters first person, and none after it leaves.
pub open spec fn entered_at(s: CameraState, h: Seq<Event>, k: int) -> bool {
    &&& 0 <= k < h.len()
    &&& entry(after(s, h.take(k)), h[k])
    &&& forall|j: int| k < j < h.len() ==> !exit(after(s, #[trigger] h.take(j)), h[j])
}

/// Whatever happens, first person is on exactly where it was entered and not left
/// since; it is off before it is first entered.
pub proof fn lemma_first_person(s: CameraState, h: Seq<Event>)
    requires
        !s.fps_mode,
    ensures
        after(s, h).fps_mode <==> exists|k: int| entered_at(s, h, k),
    decreases h.len(),
{
    if h.len() > 0 {
        let p = h.drop_last();
        let n = h.len() - 1;
        let at = after(s, p);
        lemma_first_person(s, p);
        assert(h.take(n) =~= p);
        assert forall|j: int| 0 <= j <= n implies #[trigger] h.take(j) =~= p.take(j) by {}
        if after(s, h).fps_mode {
            if at.fps_mode {
                let k = choose|k: int| entered_at(s, p, k);
                assert(p.take(k) == h.take(k));
                assert forall|j: int| k < j < h.len() implies !exit(after(s, #[trigger] h.take(j)), h[j]) by {
                    if j < n {
                        assert(p.take(j) == h.take(j));
                        assert(p[j] == h[j]);
                    }
                }
                assert(entered_at(s, h, k));
            } else {
                assert(entered_at(s, h, n));
            }
        }
        if exists|k: int| entered_at(s, h, k) {
            let k = choose|k: int| entered_at(s, h, k);
            if k < n {
                assert(p.take(k) == h.take(k));
                assert forall|j: int| k < j < p.len() implies !exit(after(s, #[trigger] p.take(j)), p[j]) by {
                    assert(p.take(j) == h.take(j));
                }
                assert(entered_at(s, p, k));
                assert(!exit(after(s, h.take(n)), h[n]));
            }
        }
    }
}

/// A message of the wheel adds as much as it was turned to what was not used yet,
/// toward the user as less than nothing.
pub proof fn lemma_wheel_adds_up(wparam: u64, turned: int, low: int, high: int)
    requires
        -0x8000 <= turned < 0x8000,
        0 <= low < 0x1_0000,
        0 <= high < 0x1_0000_0000,
        wparam == high * 0x1_0000_0000 + (if turned < 0 {
            turned + 0x1_0000
        } else {
            turned
        }) * 0x1_0000 + low,
    ensures
        wheel_delta(wparam) == turned,
        forall|s: CameraState|
            i32::MIN <= s.scroll + turned <= i32::MAX ==> (#[trigger] happened(
                s,
                Event::Message(0x020A, wparam),
            )) == (CameraState { scroll: (s.scroll + turned) as i32, ..s }),
{
    let t: int = if turned < 0 {
        turned + 0x1_0000
    } else {
        turned
    };
    assert(wparam as int / 0x1_0000 == high * 0x1_0000 + t);
    assert((high * 0x1_0000 + t) % 0x1_0000 == t);
}

} // verus!
