//! Per-frame state: the size of the window, the count of frames, the visible
//! part of the map, and the search for the zoom inside the game's view.

use vstd::prelude::*;

verus! {

/// The visible part of the map, in 256ths of a tile.
#[derive(Clone, Copy, PartialEq, Eq, Structural, Debug)]
pub struct ViewRect {
    pub left: i32,
    pub top: i32,
    pub span_x: i32,
    pub span_y: i32,
}

/// Spans that are no larger than a tenth of a tile are no view.
pub const MIN_SPAN: i32 = 25;

/// How far the search for the zoom has come.
#[derive(Clone, Copy, PartialEq, Eq, Structural, Debug)]
pub enum Calibration {
    Searching,
    Found,
    /// The view is not widened in this session.
    Failed,
}

/// The frames after which the search is given up.
pub const MAX_CALIB_TRIES: u64 = 300;

/// What is kept from frame to frame.
#[derive(Debug)]
pub struct FrameState {
    pub renderer: bool,
    pub base_w: u32,
    pub base_h: u32,
    pub frame: u64,
    pub rect: ViewRect,
    pub calibration: Calibration,
    pub tries: u64,
    /// Offsets at which the zoom may stand; the first is in use.
    pub candidates: Vec<u64>,
}

/// What a `FrameState` holds.
#[verifier::ext_equal]
pub ghost struct FrameSpec {
    pub renderer: bool,
    pub base: (u32, u32),
    pub frame: u64,
    pub rect: ViewRect,
    pub calibration: Calibration,
    pub tries: u64,
    pub candidates: Seq<u64>,
}

impl View for FrameState {
    type V = FrameSpec;

    open spec fn view(&self) -> FrameSpec {
        FrameSpec {
            renderer: self.renderer,
            base: (self.base_w, self.base_h),
            frame: self.frame,
            rect: self.rect,
            calibration: self.calibration,
            tries: self.tries,
            candidates: self.candidates@,
        }
    }
}

/// The state before the first frame.
pub open spec fn at_start() -> FrameSpec {
    FrameSpec {
        renderer: false,
        base: (0u32, 0u32),
        frame: 0,
        rect: ViewRect { left: 0, top: 0, span_x: 0, span_y: 0 },
        calibration: Calibration::Searching,
        tries: 0,
        candidates: Seq::empty(),
    }
}

impl FrameState {
    pub fn new() -> (r: FrameState)
        ensures
            r@ == at_start(),
    {
        FrameState {
            renderer: false,
            base_w: 0,
            base_h: 0,
            frame: 0,
            rect: ViewRect { left: 0, top: 0, span_x: 0, span_y: 0 },
            calibration: Calibration::Searching,
            tries: 0,
            candidates: Vec::new(),
        }
    }
}

/// Notes that there is a renderer. The first one stays; whether this is the
/// first is the result.
pub fn create_renderer(s: &mut FrameState) -> (r: bool)
    ensures
        final(s)@ == (FrameSpec { renderer: true, ..old(s)@ }),
        r == !old(s).renderer,
{
    let first: bool = !s.renderer;
    s.renderer = true;
    first
}

/// Takes the size of the window.
pub fn set_base_size(s: &mut FrameState, w: u32, h: u32)
    ensures
        final(s)@ == (FrameSpec { base: (w, h), ..old(s)@ }),
{
    s.base_w = w;
    s.base_h = h;
}

/// The size of the window; zero before it is known.
pub fn base_size(s: &FrameState) -> (r: (u32, u32))
    ensures
        r == s@.base,
{
    (s.base_w, s.base_h)
}

/// The number of frames so far.
pub fn frame_count(s: &FrameState) -> (r: u64)
    ensures
        r == s@.frame,
{
    s.frame
}

/// The visible part of the map.
pub fn view_rect_tiles(s: &FrameState) -> (r: ViewRect)
    ensures
        r == s@.rect,
{
    s.rect
}

/// The frames after which the game is made to draw every chunk anew: chunks that
/// were drawn before the hooks were there would never show up otherwise.
pub open spec fn nudges(frame: u64) -> bool {
    frame == 300 || frame == 1200
}

/// The state after a frame was counted.
pub open spec fn counted(f: FrameSpec) -> FrameSpec {
    FrameSpec { frame: ((f.frame + 1) % 0x1_0000_0000_0000_0000) as u64, ..f }
}

/// Counts a frame. The result is the size with which the game is to be told of
/// a change of size that did not happen, where it is time for that.
pub fn end_frame(s: &mut FrameState) -> (r: Option<(u16, u16)>)
    ensures
        final(s)@ == counted(old(s)@),
        r == if nudges(old(s).frame) && old(s).base_w > 0 && old(s).base_h > 0 {
            Some(((old(s).base_w % 0x1_0000) as u16, (old(s).base_h % 0x1_0000) as u16))
        } else {
            None
        },
{
    let frame: u64 = s.frame;
    s.frame = frame.wrapping_add(1);
    if (frame == 300 || frame == 1200) && s.base_w > 0 && s.base_h > 0 {
        Some(((s.base_w % 0x1_0000) as u16, (s.base_h % 0x1_0000) as u16))
    } else {
        None
    }
}

/// A view of this width is the main one: previews are far smaller than half the
/// window. Before the window's size is known every view counts as the main one.
pub open spec fn is_main(base_w: u32, width: u16) -> bool {
    base_w == 0 || width * 2 >= base_w
}

/// Whether a view is the main one, by its width.
pub fn rp_is_main(s: &FrameState, width: u16) -> (r: bool)
    ensures
        r == is_main(s.base_w, width),
{
    s.base_w == 0 || (width as u32) * 2 >= s.base_w
}

/// The state after a rectangle was made known: it counts where it is the main
/// view's and not empty.
pub open spec fn published(f: FrameSpec, width: u16, l: i32, t: i32, r: i32, b: i32) -> FrameSpec {
    if is_main(f.base.0, width) && r - l > MIN_SPAN && b - t > MIN_SPAN {
        FrameSpec {
            rect: ViewRect { left: l, top: t, span_x: (r - l) as i32, span_y: (b - t) as i32 },
            ..f
        }
    } else {
        f
    }
}

/// Takes the rectangle that the game will draw, where it is the main view's and
/// not empty.
pub fn publish_rect(s: &mut FrameState, width: u16, l: i32, t: i32, r: i32, b: i32)
    requires
        i32::MIN <= r - l <= i32::MAX,
        i32::MIN <= b - t <= i32::MAX,
    ensures
        final(s)@ == published(old(s)@, width, l, t, r, b),
{
    if rp_is_main(s, width) && r - l > MIN_SPAN && b - t > MIN_SPAN {
        s.rect = ViewRect { left: l, top: t, span_x: r - l, span_y: b - t };
    }
}

/// What is done when the game centers a view.
#[derive(Clone, Copy, PartialEq, Eq, Structural, Debug)]
pub enum CenterAction {
    /// Nothing besides.
    Plain,
    /// The zoom is looked for.
    Calibrate,
    /// The view is widened.
    Widen,
}

/// What is done when the game centers a view: only the main view is widened,
/// and only while its parameters are being made.
pub fn center_action(s: &FrameState, making_main: bool, width: u16) -> (r: CenterAction)
    ensures
        r == if !making_main || !is_main(s.base_w, width) {
            CenterAction::Plain
        } else {
            match s.calibration {
                Calibration::Searching => CenterAction::Calibrate,
                Calibration::Found => CenterAction::Widen,
                Calibration::Failed => CenterAction::Plain,
            }
        },
{
    if !making_main || !rp_is_main(s, width) {
        return CenterAction::Plain;
    }
    match s.calibration {
        Calibration::Searching => CenterAction::Calibrate,
        Calibration::Found => CenterAction::Widen,
        Calibration::Failed => CenterAction::Plain,
    }
}

/// The offsets of the words that are marked.
pub open spec fn marked_offsets(marks: Seq<bool>) -> Seq<u64>
    decreases marks.len(),
{
    if marks.len() == 0 {
        Seq::empty()
    } else if marks.last() {
        marked_offsets(marks.drop_last()).push((8 * (marks.len() - 1)) as u64)
    } else {
        marked_offsets(marks.drop_last())
    }
}

fn offsets_of(marks: &Vec<bool>) -> (r: Vec<u64>)
    requires
        marks.len() <= 0x1000,
    ensures
        r@ == marked_offsets(marks@),
{
    let mut r: Vec<u64> = Vec::new();
    let mut i: usize = 0;
    while i < marks.len()
        invariant
            i <= marks.len(),
            marks.len() <= 0x1000,
            r@ == marked_offsets(marks@.take(i as int)),
        decreases marks.len() - i,
    {
        assert(marks@.take(i + 1).drop_last() =~= marks@.take(i as int));
        if marks[i] {
            r.push(8 * (i as u64));
        }
        i = i + 1;
    }
    assert(marks@.take(i as int) =~= marks@);
    r
}

/// The state after a frame in which the zoom was looked for.
pub open spec fn calibrated(f: FrameSpec, scale_ok: bool, marks: Seq<bool>) -> FrameSpec {
    if !scale_ok {
        f
    } else if marked_offsets(marks).len() > 0 {
        FrameSpec { candidates: marked_offsets(marks), calibration: Calibration::Found, ..f }
    } else {
        FrameSpec {
            tries: ((f.tries + 1) % 0x1_0000_0000_0000_0000) as u64,
            calibration: if f.tries > MAX_CALIB_TRIES {
                Calibration::Failed
            } else {
                f.calibration
            },
            ..f
        }
    }
}

/// Takes what a frame without widening showed: which words of the view were
/// equal to the scale that came out. Where some were, the zoom stands in one of
/// them; where none was for too long, the search is given up. A scale that is no
/// number counts as no frame.
pub fn calibrate_zoom_offset(s: &mut FrameState, scale_ok: bool, matches_scale: &Vec<bool>)
    requires
        matches_scale.len() <= 0x1000,
    ensures
        final(s)@ == calibrated(old(s)@, scale_ok, matches_scale@),
{
    if !scale_ok {
        return;
    }
    let found: Vec<u64> = offsets_of(matches_scale);
    if found.len() > 0 {
        s.candidates = found;
        s.calibration = Calibration::Found;
    } else {
        let before: u64 = s.tries;
        s.tries = before.wrapping_add(1);
        if before > MAX_CALIB_TRIES {
            s.calibration = Calibration::Failed;
        }
    }
}

/// The state after the zoom was to be edited: without an offset for it the search
/// has failed.
pub open spec fn offset_taken(f: FrameSpec) -> FrameSpec {
    if f.candidates.len() == 0 {
        FrameSpec { calibration: Calibration::Failed, ..f }
    } else {
        f
    }
}

/// The offset at which the zoom is edited; without one the search has failed.
pub fn zoom_offset(s: &mut FrameState) -> (r: Option<u64>)
    ensures
        final(s)@ == offset_taken(old(s)@),
        r == if old(s).candidates@.len() == 0 {
            None
        } else {
            Some(old(s).candidates@[0])
        },
{
    if s.candidates.len() == 0 {
        s.calibration = Calibration::Failed;
        return None;
    }
    Some(s.candidates[0])
}

/// The state after an edit of the zoom.
pub open spec fn confirmed(f: FrameSpec, drove: bool) -> FrameSpec {
    if drove {
        f
    } else {
        let rest = if f.candidates.len() > 0 {
            f.candidates.drop_first()
        } else {
            f.candidates
        };
        FrameSpec {
            candidates: rest,
            calibration: if rest.len() == 0 {
                Calibration::Failed
            } else {
                f.calibration
            },
            ..f
        }
    }
}

/// Takes whether the edit drove the scale. Where it did not, the offset is
/// dropped and the next one takes its place; without any left the search has
/// failed.
pub fn confirm_zoom_offset(s: &mut FrameState, drove: bool)
    ensures
        final(s)@ == confirmed(old(s)@, drove),
{
    if drove {
        return;
    }
    if s.candidates.len() > 0 {
        let _ = s.candidates.remove(0);
        assert(s.candidates@ =~= old(s).candidates@.drop_first());
    }
    if s.candidates.len() == 0 {
        s.calibration = Calibration::Failed;
    }
}

/// Whether the view is tilted or turned enough to be widened; angles are in
/// tenths of a degree.
pub fn engaged(yaw: u32, pitch: i32) -> (r: bool)
    ensures
        r == (pitch < 890 || yaw > 10),
{
    pitch < 890 || yaw > 10
}

/// What happens to the state, by the function that makes it happen.
pub ghost enum Step {
    CreateRenderer,
    SetBaseSize(u32, u32),
    EndFrame,
    PublishRect(u16, i32, i32, i32, i32),
    Calibrate(bool, Seq<bool>),
    ZoomOffset,
    ConfirmZoom(bool),
}

/// The state after a step.
pub open spec fn stepped(f: FrameSpec, step: Step) -> FrameSpec {
    match step {
        Step::CreateRenderer => FrameSpec { renderer: true, ..f },
        Step::SetBaseSize(w, h) => FrameSpec { base: (w, h), ..f },
        Step::EndFrame => counted(f),
        Step::PublishRect(width, l, t, r, b) => published(f, width, l, t, r, b),
        Step::Calibrate(scale_ok, marks) => calibrated(f, scale_ok, marks),
        Step::ZoomOffset => offset_taken(f),
        Step::ConfirmZoom(drove) => confirmed(f, drove),
    }
}

/// The state after steps from the start.
pub open spec fn run(steps: Seq<Step>) -> FrameSpec
    decreases steps.len(),
{
    if steps.len() == 0 {
        at_start()
    } else {
        stepped(run(steps.drop_last()), steps.last())
    }
}

/// How many of the steps end a frame.
pub open spec fn frames_ended(steps: Seq<Step>) -> nat
    decreases steps.len(),
{
    if steps.len() == 0 {
        0
    } else {
        frames_ended(steps.drop_last()) + (if steps.last() == Step::EndFrame {
            1nat
        } else {
            0
        })
    }
}

/// The number of frames is the number of those that have ended since the start,
/// whatever else happened; the count starts anew where it no longer fits.
pub proof fn lemma_frames_are_counted(steps: Seq<Step>)
    ensures
        run(steps).frame == frames_ended(steps) % 0x1_0000_0000_0000_0000,
        frames_ended(steps) < 0x1_0000_0000_0000_0000 ==> run(steps).frame == frames_ended(steps),
        steps.len() > 0 && steps.last() != Step::EndFrame ==> run(steps).frame == run(
            steps.drop_last(),
        ).frame,
    decreases steps.len(),
{
    if steps.len() > 0 {
        lemma_frames_are_counted(steps.drop_last());
    }
}

/// The rectangle of a view that is at least half as wide as the window, or of any
/// before the window's size is known, becomes the visible part of the map unless it
/// is a tenth of a tile wide or less. Nothing else changes it.
pub proof fn lemma_visible_part(f: FrameSpec, width: u16, l: i32, t: i32, r: i32, b: i32)
    requires
        i32::MIN <= r - l <= i32::MAX,
        i32::MIN <= b - t <= i32::MAX,
    ensures
        ({
            let p = published(f, width, l, t, r, b);
            let counts = (f.base.0 == 0 || 2 * width >= f.base.0) && r > l + 25 && b > t + 25;
            &&& counts ==> p.rect.left == l && p.rect.top == t && p.rect.left + p.rect.span_x == r
                && p.rect.top + p.rect.span_y == b
            &&& !counts ==> p.rect == f.rect
            &&& p.base == f.base && p.frame == f.frame && p.calibration == f.calibration && p.candidates
                == f.candidates && p.tries == f.tries && p.renderer == f.renderer
        }),
{
}

proof fn lemma_marked(marks: Seq<bool>)
    requires
        marks.len() <= 0x1000,
    ensures
        forall|i: int| 0 <= i < marks.len() && #[trigger] marks[i] ==> marked_offsets(marks).contains((8 * i) as u64),
        forall|k: int|
            0 <= k < marked_offsets(marks).len() ==> (#[trigger] marked_offsets(marks)[k]) % 8 == 0
                && marked_offsets(marks)[k] < 8 * marks.len() && marks[marked_offsets(marks)[k] as int / 8],
        forall|a: int, b: int|
            0 <= a < b < marked_offsets(marks).len() ==> marked_offsets(marks)[a] < marked_offsets(marks)[b],
    decreases marks.len(),
{
    if marks.len() > 0 {
        let d = marks.drop_last();
        lemma_marked(d);
        let m = marked_offsets(marks);
        let b = marked_offsets(d);
        assert forall|i: int| 0 <= i < marks.len() && #[trigger] marks[i] implies m.contains((8 * i) as u64) by {
            if i < d.len() {
                assert(d[i]);
                let k = choose|k: int| 0 <= k < b.len() && b[k] == (8 * i) as u64;
                assert(m[k] == (8 * i) as u64);
            } else {
                assert(m[b.len() as int] == (8 * i) as u64);
            }
        }
        assert forall|k: int| 0 <= k < m.len() implies (#[trigger] m[k]) % 8 == 0 && m[k] < 8 * marks.len()
            && marks[m[k] as int / 8] by {
            if k < b.len() {
                assert(m[k] == b[k]);
            }
        }
    }
}

/// The zoom is searched for among the words of the view: those that were equal to
/// the scale, and only those, are tried, from the lowest on. A frame whose scale is
/// no number tells nothing; where more than 300 frames before have shown none, the
/// search is given up.
pub proof fn lemma_search_for_the_zoom(f: FrameSpec, scale_ok: bool, marks: Seq<bool>, i: int)
    requires
        marks.len() <= 0x1000,
        f.tries < u64::MAX,
    ensures
        ({
            let c = calibrated(f, scale_ok, marks);
            let some = exists|j: int| 0 <= j < marks.len() && #[trigger] marks[j];
            &&& !scale_ok ==> c == f
            &&& scale_ok && some ==> c.calibration == Calibration::Found && c.tries == f.tries
            &&& scale_ok && some && 0 <= i < marks.len() ==> (marks[i] <==> c.candidates.contains((8 * i) as u64))
            &&& scale_ok && some ==> c.candidates.len() > 0 && forall|a: int, b: int|
                0 <= a < b < c.candidates.len() ==> c.candidates[a] < c.candidates[b]
            &&& scale_ok && !some ==> c.tries == f.tries + 1 && c.candidates == f.candidates
            &&& scale_ok && !some && f.tries > 300 ==> c.calibration == Calibration::Failed
            &&& scale_ok && !some && f.tries <= 300 ==> c.calibration == f.calibration
            &&& c.rect == f.rect && c.frame == f.frame && c.base == f.base
        }),
{
    lemma_marked(marks);
    let m = marked_offsets(marks);
    if exists|j: int| 0 <= j < marks.len() && #[trigger] marks[j] {
        let j = choose|j: int| 0 <= j < marks.len() && #[trigger] marks[j];
        assert(m.contains((8 * j) as u64));
        if 0 <= i < marks.len() && m.contains((8 * i) as u64) {
            let k = choose|k: int| 0 <= k < m.len() && m[k] == (8 * i) as u64;
            assert(marks[m[k] as int / 8]);
        }
    } else if m.len() > 0 {
        assert(marks[m[0] as int / 8]);
    }
}

/// An offset whose edit did not drive the scale is never tried again, and the next
/// one is; after the last one the search has failed. An edit that did keeps it.
pub proof fn lemma_offsets_are_tried_in_turn(f: FrameSpec)
    ensures
        confirmed(f, true) == f,
        f.candidates.len() > 1 ==> confirmed(f, false).candidates == f.candidates.skip(1) && confirmed(f, false).calibration
            == f.calibration && offset_taken(f) == f,
        f.candidates.len() <= 1 ==> confirmed(f, false).candidates.len() == 0 && confirmed(f, false).calibration
            == Calibration::Failed,
        f.candidates.len() == 0 ==> offset_taken(f).calibration == Calibration::Failed,
        f.candidates.len() > 0 ==> offset_taken(f) == f,
        confirmed(f, false).rect == f.rect && confirmed(f, false).frame == f.frame,
{
    if f.candidates.len() > 0 {
        assert(f.candidates.drop_first() =~= f.candidates.skip(1));
    }
}

/// Only the main view is widened, while it is being made, once the zoom was found and
/// until the search for it has failed.
pub proof fn lemma_only_the_main_view_is_widened(
    s: &FrameState,
    making_main: bool,
    width: u16,
    r: CenterAction,
    main: bool,
)
    requires
        call_ensures(center_action, (s, making_main, width), r),
        call_ensures(rp_is_main, (s, width), main),
    ensures
        main == (s.base_w == 0 || 2 * width >= s.base_w),
        (r == CenterAction::Widen) == (making_main && main && s.calibration == Calibration::Found),
        (r == CenterAction::Calibrate) == (making_main && main && s.calibration == Calibration::Searching),
{
}

/// The game is told of a change of size twice in a session, after 300 and after 1200
/// frames.
pub proof fn lemma_two_nudges(frame: u64)
    ensures
        nudges(frame) <==> frame == 300 || frame == 1200,
        frame < u64::MAX ==> counted(at_start()).frame == 1 && stepped(
            FrameSpec { frame, ..at_start() },
            Step::EndFrame,
        ).frame == frame + 1,
{
}

/// Before the first frame nothing is known: no window, no view, and the search for the
/// zoom has not begun.
pub proof fn lemma_before_the_first_frame(r: FrameState)
    requires
        call_ensures(FrameState::new, (), r),
    ensures
        r.frame == 0 && r.tries == 0 && r.base_w == 0 && r.base_h == 0 && !r.renderer,
        r.rect.left == 0 && r.rect.top == 0 && r.rect.span_x == 0 && r.rect.span_y == 0,
        r.calibration == Calibration::Searching && r.candidates@.len() == 0,
{
}

} // verus!
