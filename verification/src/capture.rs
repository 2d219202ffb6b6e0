//! Capturing layers: while a range of layers is drawn, the world's target is
//! swapped for one of the mod's own, so that the layers can be put back into
//! the turned view one by one.
//!
//! One window is open at a time. A window into a layer captures the layer as it
//! is; a window into a tile captures a magnified part of the view, and the tiles
//! take turns.

use crate::frame::ViewRect;
use vstd::prelude::*;

verus! {

/// The layers that are captured.
#[derive(Clone, Copy, PartialEq, Eq, Structural, Debug)]
pub enum CaptureKind {
    /// What stands up: buildings, characters, vehicles.
    Object,
    /// Belts and rails, which lie on a lifted plane.
    Belt,
    /// Elevated rails and the trains on them.
    Elevated,
    /// Wires, which hang between poles.
    Wire,
}

/// The targets that are magnified.
#[derive(Clone, Copy, PartialEq, Eq, Structural, Debug)]
pub enum HiKind {
    Object,
    Ground,
    Belt,
    Elevated,
}

/// How much larger than the view the tiles are, per axis.
pub const HI_SUPER: u32 = 2;

/// The most tiles per axis.
pub const MAX_HI_GRID: u32 = 2;

pub const MAX_HI_TILES: u32 = 4;

/// The tile that is drawn anew every frame, for what moves.
pub const LIVE_TILE: u32 = 4;

pub const MAX_HI_SLICES: u32 = 5;

/// What is bound as the world's target: its view, its texture and its depth
/// buffer as handles, and its size and format.
#[derive(Clone, Copy, PartialEq, Eq, Structural, Debug)]
pub struct Binding {
    pub rtv: u64,
    pub res: u64,
    pub dsv: u64,
    pub w: u32,
    pub h: u32,
    pub format: u32,
}

/// The target of a layer.
#[derive(Clone, Copy, PartialEq, Eq, Structural, Debug)]
pub struct Target {
    pub w: u32,
    pub h: u32,
    pub format: u32,
    /// It was cleared this frame.
    pub cleared: bool,
    /// It was drawn to this frame.
    pub captured: bool,
}

/// The tiles of a magnified target.
#[derive(Clone, Copy, PartialEq, Eq, Structural, Debug)]
pub struct HiTarget {
    pub w: u32,
    pub h: u32,
    pub slices: u32,
    pub format: u32,
    pub cleared: bool,
    pub live_cleared: bool,
    pub captured: bool,
}

/// What the scissor rectangle is replaced by while a tile is drawn, and the
/// width by which the full one is told.
#[derive(Clone, Copy, PartialEq, Eq, Structural, Debug)]
pub struct ScissorSub {
    pub base_w: u32,
    pub right: u32,
    pub bottom: u32,
}

#[derive(Clone, Copy, PartialEq, Eq, Structural, Debug)]
pub struct Capture {
    /// The device is up.
    pub ready: bool,
    /// The view will be turned this frame, so layers are worth capturing.
    pub enabled: bool,
    /// The world is being drawn.
    pub world_render: bool,
    /// A window is open, and binds of the world are redirected.
    pub divert: bool,
    /// The world's target, while a window is open.
    pub saved: Option<Binding>,
    /// The viewport is to be put back with it.
    pub saved_vp: bool,
    pub object: Option<Target>,
    pub belt: Option<Target>,
    pub elevated: Option<Target>,
    pub wire: Option<Target>,
    pub object_hi: Option<HiTarget>,
    pub ground_hi: Option<HiTarget>,
    pub belt_hi: Option<HiTarget>,
    pub elevated_hi: Option<HiTarget>,
    pub hi_grid: u32,
    pub active_kind: Option<CaptureKind>,
    pub hi_window: Option<HiKind>,
    pub sub: Option<ScissorSub>,
    pub rot_frame: u64,
}

/// The view under which a tile was drawn, and how much of it the tile covers, as
/// the bits of a float; 0 for a tile that was not drawn.
#[derive(Clone, Copy, PartialEq, Eq, Structural, Debug)]
pub struct HiTileMeta {
    pub stamp: ViewRect,
    pub cover: u32,
}

/// What is known of the tiles.
#[derive(Debug)]
pub struct HiTiles {
    pub last_grid: u32,
    pub meta: Vec<HiTileMeta>,
}

pub open spec fn blank_meta() -> HiTileMeta {
    HiTileMeta { stamp: ViewRect { left: 0, top: 0, span_x: 0, span_y: 0 }, cover: 0 }
}

impl HiTiles {
    pub open spec fn wf(&self) -> bool {
        self.meta@.len() == 5
    }

    pub fn new() -> (r: HiTiles)
        ensures
            r.wf(),
            r.last_grid == 0,
            r.meta@ == Seq::new(5, |i: int| blank_meta()),
    {
        let mut t = HiTiles { last_grid: 0, meta: Vec::new() };
        t.blank();
        t
    }

    fn blank(&mut self)
        ensures
            final(self).last_grid == old(self).last_grid,
            final(self).meta@ == Seq::new(5, |i: int| blank_meta()),
    {
        let m = HiTileMeta {
            stamp: ViewRect { left: 0, top: 0, span_x: 0, span_y: 0 },
            cover: 0,
        };
        let mut v: Vec<HiTileMeta> = Vec::new();
        v.push(m);
        v.push(m);
        v.push(m);
        v.push(m);
        v.push(m);
        assert(v@ =~= Seq::new(5, |i: int| blank_meta()));
        self.meta = v;
    }
}

impl Capture {
    /// A window is open exactly while the world's target is saved.
    pub open spec fn wf(&self) -> bool {
        &&& self.divert <==> self.saved is Some
        &&& self.saved is None ==> self.active_kind is None
        &&& 1 <= self.hi_grid <= MAX_HI_GRID
    }

    pub fn new() -> (r: Capture)
        ensures
            r.wf(),
            !r.ready,
            !r.enabled,
            !r.world_render,
            r.saved is None,
            r.hi_window is None,
            r.sub is None,
            r.rot_frame == 0,
            r.hi_grid == 1,
    {
        Capture {
            ready: false,
            enabled: false,
            world_render: false,
            divert: false,
            saved: None,
            saved_vp: false,
            object: None,
            belt: None,
            elevated: None,
            wire: None,
            object_hi: None,
            ground_hi: None,
            belt_hi: None,
            elevated_hi: None,
            hi_grid: 1,
            active_kind: None,
            hi_window: None,
            sub: None,
            rot_frame: 0,
        }
    }

    pub open spec fn target(&self, kind: CaptureKind) -> Option<Target> {
        match kind {
            CaptureKind::Object => self.object,
            CaptureKind::Belt => self.belt,
            CaptureKind::Elevated => self.elevated,
            CaptureKind::Wire => self.wire,
        }
    }

    pub open spec fn with_target(&self, kind: CaptureKind, t: Option<Target>) -> Capture {
        match kind {
            CaptureKind::Object => Capture { object: t, ..*self },
            CaptureKind::Belt => Capture { belt: t, ..*self },
            CaptureKind::Elevated => Capture { elevated: t, ..*self },
            CaptureKind::Wire => Capture { wire: t, ..*self },
        }
    }

    pub open spec fn hi_target(&self, kind: HiKind) -> Option<HiTarget> {
        match kind {
            HiKind::Object => self.object_hi,
            HiKind::Ground => self.ground_hi,
            HiKind::Belt => self.belt_hi,
            HiKind::Elevated => self.elevated_hi,
        }
    }

    pub open spec fn with_hi_target(&self, kind: HiKind, t: Option<HiTarget>) -> Capture {
        match kind {
            HiKind::Object => Capture { object_hi: t, ..*self },
            HiKind::Ground => Capture { ground_hi: t, ..*self },
            HiKind::Belt => Capture { belt_hi: t, ..*self },
            HiKind::Elevated => Capture { elevated_hi: t, ..*self },
        }
    }

    fn get_target(&self, kind: CaptureKind) -> (r: Option<Target>)
        ensures
            r == self.target(kind),
    {
        match kind {
            CaptureKind::Object => self.object,
            CaptureKind::Belt => self.belt,
            CaptureKind::Elevated => self.elevated,
            CaptureKind::Wire => self.wire,
        }
    }

    fn set_target(&mut self, kind: CaptureKind, t: Option<Target>)
        ensures
            *final(self) == old(self).with_target(kind, t),
    {
        match kind {
            CaptureKind::Object => {
                self.object = t;
            },
            CaptureKind::Belt => {
                self.belt = t;
            },
            CaptureKind::Elevated => {
                self.elevated = t;
            },
            CaptureKind::Wire => {
                self.wire = t;
            },
        }
    }

    fn get_hi_target(&self, kind: HiKind) -> (r: Option<HiTarget>)
        ensures
            r == self.hi_target(kind),
    {
        match kind {
            HiKind::Object => self.object_hi,
            HiKind::Ground => self.ground_hi,
            HiKind::Belt => self.belt_hi,
            HiKind::Elevated => self.elevated_hi,
        }
    }

    fn set_hi_target(&mut self, kind: HiKind, t: Option<HiTarget>)
        ensures
            *final(self) == old(self).with_hi_target(kind, t),
    {
        match kind {
            HiKind::Object => {
                self.object_hi = t;
            },
            HiKind::Ground => {
                self.ground_hi = t;
            },
            HiKind::Belt => {
                self.belt_hi = t;
            },
            HiKind::Elevated => {
                self.elevated_hi = t;
            },
        }
    }
}

pub fn set_capture_enabled(s: &mut Capture, on: bool)
    requires
        old(s).wf(),
    ensures
        final(s).wf(),
        *final(s) == (Capture { enabled: on, ..*old(s) }),
{
    s.enabled = on;
}

pub fn capture_enabled(s: &Capture) -> (r: bool)
    ensures
        r == s.enabled,
{
    s.enabled
}

pub fn set_world_render_active(s: &mut Capture, on: bool)
    requires
        old(s).wf(),
    ensures
        final(s).wf(),
        *final(s) == (Capture { world_render: on, ..*old(s) }),
{
    s.world_render = on;
}

pub fn world_render_active(s: &Capture) -> (r: bool)
    ensures
        r == s.world_render,
{
    s.world_render
}

/// The bits of 2 as a float.
pub const TWO_BITS: u32 = 0x4000_0000;

/// The bits of infinity as a float.
pub const INFINITY_BITS: u32 = 0x7F80_0000;

/// How many tiles per axis cover the view at a magnification, which is given as
/// the bits of a float: one tile reaches as far as the factor 2.
pub fn hi_grid_for(boost: u32) -> (r: u32)
    ensures
        r == if TWO_BITS < boost <= INFINITY_BITS {
            2u32
        } else {
            1u32
        },
{
    if TWO_BITS < boost && boost <= INFINITY_BITS {
        2
    } else {
        1
    }
}

/// The next tile's turn comes.
pub fn advance_hi_rotation(s: &mut Capture)
    requires
        old(s).wf(),
    ensures
        final(s).wf(),
        *final(s) == (Capture {
            rot_frame: ((old(s).rot_frame + 1) % 0x1_0000_0000_0000_0000) as u64,
            ..*old(s)
        }),
{
    s.rot_frame = s.rot_frame.wrapping_add(1);
}

/// The device is up: nothing is captured yet.
pub fn init(s: &mut Capture)
    requires
        old(s).wf(),
    ensures
        final(s).wf(),
        *final(s) == (Capture {
            ready: true,
            divert: false,
            saved: None,
            saved_vp: false,
            object: None,
            belt: None,
            elevated: None,
            wire: None,
            object_hi: None,
            ground_hi: None,
            belt_hi: None,
            elevated_hi: None,
            hi_grid: 1,
            active_kind: None,
            hi_window: None,
            ..*old(s)
        }),
{
    s.ready = true;
    s.divert = false;
    s.saved = None;
    s.saved_vp = false;
    s.object = None;
    s.belt = None;
    s.elevated = None;
    s.wire = None;
    s.object_hi = None;
    s.ground_hi = None;
    s.belt_hi = None;
    s.elevated_hi = None;
    s.hi_grid = 1;
    s.active_kind = None;
    s.hi_window = None;
}

/// A window can be opened: the device is up, none is open, and what is bound is
/// the world's target, which is at least as wide as the window.
pub open spec fn can_open(s: Capture, bound: Option<Binding>, base_w: u32) -> bool {
    &&& s.ready
    &&& s.saved is None
    &&& bound is Some
    &&& base_w != 0
    &&& bound->0.w >= base_w
}

fn may_open(s: &Capture, bound: &Option<Binding>, base_w: u32) -> (r: bool)
    ensures
        r == can_open(*s, *bound, base_w),
{
    if !s.ready || s.saved.is_some() || base_w == 0 {
        return false;
    }
    match bound {
        Some(b) => b.w >= base_w,
        None => false,
    }
}

/// The target of a layer can be used for a world's target of this size.
pub open spec fn fits(t: Option<Target>, b: Binding) -> bool {
    t is Some && t->0.w == b.w && t->0.h == b.h && t->0.format == b.format
}

/// What has to be done before a window is opened.
#[derive(Clone, Copy, PartialEq, Eq, Structural, Debug)]
pub enum TargetNeed {
    /// The window cannot be opened.
    Refused,
    /// The target is there.
    Ready,
    /// A target has to be made first.
    Create,
}

/// What has to be done before a window into a layer is opened.
pub fn ensure_target(s: &Capture, kind: CaptureKind, bound: &Option<Binding>, base_w: u32) -> (r: TargetNeed)
    ensures
        r == if !can_open(*s, *bound, base_w) {
            TargetNeed::Refused
        } else if fits(s.target(kind), bound->0) {
            TargetNeed::Ready
        } else {
            TargetNeed::Create
        },
{
    if !may_open(s, bound, base_w) {
        return TargetNeed::Refused;
    }
    match (s.get_target(kind), bound) {
        (Some(t), Some(b)) => if t.w == b.w && t.h == b.h && t.format == b.format {
            TargetNeed::Ready
        } else {
            TargetNeed::Create
        },
        _ => TargetNeed::Create,
    }
}

/// A window into a layer is opened, given whether a target that was missing
/// could be made.
pub open spec fn opens(s: Capture, kind: CaptureKind, bound: Option<Binding>, base_w: u32, made: bool) -> bool {
    can_open(s, bound, base_w) && (fits(s.target(kind), bound->0) || made)
}

/// The target that the window draws to.
pub open spec fn opened_target(s: Capture, kind: CaptureKind, b: Binding) -> Target {
    let captured = fits(s.target(kind), b) && s.target(kind)->0.captured;
    Target { w: b.w, h: b.h, format: b.format, cleared: true, captured }
}

/// The state with the window open.
pub open spec fn window_open(s: Capture, kind: CaptureKind, b: Binding) -> Capture {
    Capture {
        divert: true,
        saved: Some(b),
        active_kind: Some(kind),
        ..s.with_target(kind, Some(opened_target(s, kind, b)))
    }
}

/// Opens a window into a layer. Where it is not opened nothing changes, and the
/// layer is drawn as the game does. The result says whether the target has to be
/// cleared first, which is so once a frame.
pub fn begin_capture(s: &mut Capture, kind: CaptureKind, bound: Option<Binding>, base_w: u32, made: bool) -> (r: Option<bool>)
    requires
        old(s).wf(),
    ensures
        final(s).wf(),
        r is Some <==> opens(*old(s), kind, bound, base_w, made),
        r is None ==> *final(s) == *old(s),
        r matches Some(clear) ==> {
            &&& clear == !(fits(old(s).target(kind), bound->0) && old(s).target(kind)->0.cleared)
            &&& *final(s) == window_open(*old(s), kind, bound->0)
        },
{
    let need: TargetNeed = ensure_target(s, kind, &bound, base_w);
    let b: Binding = match bound {
        Some(b) => b,
        None => {
            return None;
        },
    };
    let old_target: Option<Target> = s.get_target(kind);
    let mut t = Target { w: b.w, h: b.h, format: b.format, cleared: false, captured: false };
    match need {
        TargetNeed::Refused => {
            return None;
        },
        TargetNeed::Ready => match old_target {
            Some(o) => {
                t = o;
            },
            None => {},
        },
        TargetNeed::Create => {
            if !made {
                return None;
            }
        },
    }
    let clear: bool = !t.cleared;
    t.cleared = true;
    s.set_target(kind, Some(t));
    s.saved = Some(b);
    s.active_kind = Some(kind);
    s.divert = true;
    Some(clear)
}

/// The state with no window open, after a window into a layer.
pub open spec fn window_closed(s: Capture) -> Capture {
    match s.saved {
        Some(b) => {
            let c = Capture { divert: false, saved: None, active_kind: None, ..s };
            match s.active_kind {
                Some(kind) => match c.target(kind) {
                    Some(t) => c.with_target(kind, Some(Target { captured: true, ..t })),
                    None => c,
                },
                None => c,
            }
        },
        None => Capture { divert: false, ..s },
    }
}

/// Closes a window into a layer. The result is what has to be bound again.
pub fn end_capture(s: &mut Capture) -> (r: Option<Binding>)
    requires
        old(s).wf(),
    ensures
        final(s).wf(),
        *final(s) == if old(s).ready {
            window_closed(*old(s))
        } else {
            *old(s)
        },
        r == if old(s).ready {
            old(s).saved
        } else {
            None
        },
{
    if !s.ready {
        return None;
    }
    s.divert = false;
    let saved: Option<Binding> = s.saved;
    match saved {
        Some(_) => {
            s.saved = None;
            let kind: Option<CaptureKind> = s.active_kind;
            s.active_kind = None;
            match kind {
                Some(k) => match s.get_target(k) {
                    Some(t) => {
                        s.set_target(
                            k,
                            Some(
                                Target {
                                    w: t.w,
                                    h: t.h,
                                    format: t.format,
                                    cleared: t.cleared,
                                    captured: true,
                                },
                            ),
                        );
                    },
                    None => {},
                },
                None => {},
            }
        },
        None => {},
    }
    saved
}

/// The bits of 1.01 as a float.
pub const MIN_BOOST_BITS: u32 = 0x3F81_47AE;

/// The bits of 16 as a float.
pub const MAX_BOOST_BITS: u32 = 0x4180_0000;

/// The magnification is from 1.01 to 16, and the number of tiles is one that
/// there can be.
pub open spec fn sensible(boost: u32, grid: u32) -> bool {
    MIN_BOOST_BITS <= boost <= MAX_BOOST_BITS && 1 <= grid <= MAX_HI_GRID
}

/// The tile whose turn it is.
pub open spec fn turn_of(frame: u64, grid: u32) -> int {
    frame as int % (grid * grid)
}

/// The slices that a magnified target has: only the one of what stands up has
/// the live tile.
pub open spec fn slices_of(kind: HiKind) -> u32 {
    match kind {
        HiKind::Object => MAX_HI_SLICES,
        _ => MAX_HI_TILES,
    }
}

/// A magnified target can be used.
pub open spec fn hi_fits(t: Option<HiTarget>, kind: HiKind, b: Binding) -> bool {
    &&& t is Some
    &&& t->0.w == 2 * b.w
    &&& t->0.h == 2 * b.h
    &&& t->0.slices == slices_of(kind)
    &&& t->0.format == b.format
}

/// What has to be done before a window into a tile is opened.
pub fn ensure_hi_slot(s: &Capture, kind: HiKind, boost: u32, grid: u32, bound: &Option<Binding>, base_w: u32) -> (r: TargetNeed)
    requires
        bound is Some ==> bound->0.w < 0x4000_0000 && bound->0.h < 0x4000_0000,
    ensures
        r == if !sensible(boost, grid) || !can_open(*s, *bound, base_w) {
            TargetNeed::Refused
        } else if hi_fits(s.hi_target(kind), kind, bound->0) {
            TargetNeed::Ready
        } else {
            TargetNeed::Create
        },
{
    if boost < MIN_BOOST_BITS || boost > MAX_BOOST_BITS || grid == 0 || grid > MAX_HI_GRID
        || !may_open(s, bound, base_w) {
        return TargetNeed::Refused;
    }
    let slices: u32 = match kind {
        HiKind::Object => MAX_HI_SLICES,
        _ => MAX_HI_TILES,
    };
    match (s.get_hi_target(kind), bound) {
        (Some(t), Some(b)) => if t.w == 2 * b.w && t.h == 2 * b.h && t.slices == slices && t.format
            == b.format {
            TargetNeed::Ready
        } else {
            TargetNeed::Create
        },
        _ => TargetNeed::Create,
    }
}

/// A window into a tile.
#[derive(Clone, Copy, PartialEq, Eq, Structural, Debug)]
pub struct HiWindow {
    pub slice: u32,
    pub tx: u32,
    pub ty: u32,
    /// The tile has to be cleared first, which is so once a frame.
    pub clear: bool,
}

/// The target is there or was made.
pub open spec fn hi_made(s: Capture, kind: HiKind, boost: u32, grid: u32, bound: Option<Binding>, base_w: u32, made: bool) -> bool {
    sensible(boost, grid) && can_open(s, bound, base_w) && (hi_fits(
        s.hi_target(kind),
        kind,
        bound->0,
    ) || made)
}

/// The magnified target as it is drawn to.
pub open spec fn hi_before(s: Capture, kind: HiKind, b: Binding) -> HiTarget {
    if hi_fits(s.hi_target(kind), kind, b) {
        s.hi_target(kind)->0
    } else {
        HiTarget {
            w: (2 * b.w) as u32,
            h: (2 * b.h) as u32,
            slices: slices_of(kind),
            format: b.format,
            cleared: false,
            live_cleared: false,
            captured: false,
        }
    }
}

/// The slice that the window draws to.
pub open spec fn slice_of(frame: u64, grid: u32, live: bool) -> int {
    if live {
        LIVE_TILE as int
    } else {
        turn_of(frame, grid)
    }
}

/// The state with the window open.
pub open spec fn hi_window_open(s: Capture, kind: HiKind, b: Binding, grid: u32, live: bool) -> Capture {
    let t = hi_before(s, kind, b);
    let opened = HiTarget {
        cleared: t.cleared || !live,
        live_cleared: t.live_cleared || live,
        ..t
    };
    Capture {
        divert: true,
        saved: Some(b),
        saved_vp: true,
        active_kind: None,
        hi_window: Some(kind),
        hi_grid: grid,
        sub: Some(
            ScissorSub { base_w: b.w, right: (2 * b.w) as u32, bottom: (2 * b.h) as u32 },
        ),
        ..s.with_hi_target(kind, Some(opened))
    }
}

/// What is known of the tiles when the window is asked for: nothing, where the
/// number of tiles has changed.
pub open spec fn tiles_before(t: HiTiles, boost: u32, grid: u32) -> Seq<HiTileMeta> {
    if sensible(boost, grid) && t.last_grid != grid {
        Seq::new(5, |i: int| blank_meta())
    } else {
        t.meta@
    }
}

/// Opens a window into the tile whose turn it is, or into the live tile, which
/// only what stands up has. Where a target was made for a window that is then
/// refused, the target stays.
pub fn begin_hi_capture(
    s: &mut Capture,
    tiles: &mut HiTiles,
    kind: HiKind,
    boost: u32,
    grid: u32,
    live: bool,
    bound: Option<Binding>,
    base_w: u32,
    made: bool,
    view: ViewRect,
    cover: u32,
) -> (r: Option<HiWindow>)
    requires
        old(s).wf(),
        old(tiles).wf(),
        bound is Some ==> bound->0.w < 0x4000_0000 && bound->0.h < 0x4000_0000,
    ensures
        final(s).wf(),
        final(tiles).wf(),
        r is Some <==> hi_made(*old(s), kind, boost, grid, bound, base_w, made) && (live ==> kind
            == HiKind::Object),
        final(tiles).last_grid == if sensible(boost, grid) {
            grid
        } else {
            old(tiles).last_grid
        },
        r is None ==> {
            &&& final(tiles).meta@ == tiles_before(*old(tiles), boost, grid)
            &&& *final(s) == if hi_made(*old(s), kind, boost, grid, bound, base_w, made) {
                old(s).with_hi_target(kind, Some(hi_before(*old(s), kind, bound->0)))
            } else {
                *old(s)
            }
        },
        r matches Some(w) ==> {
            let t = hi_before(*old(s), kind, bound->0);
            let n = turn_of(old(s).rot_frame, grid);
            &&& w.slice == slice_of(old(s).rot_frame, grid, live)
            &&& w.slice < slices_of(kind)
            &&& w.tx == n % (grid as int)
            &&& w.ty == n / (grid as int)
            &&& w.clear == !(if live {
                t.live_cleared
            } else {
                t.cleared
            })
            &&& *final(s) == hi_window_open(*old(s), kind, bound->0, grid, live)
            &&& final(tiles).meta@ == tiles_before(*old(tiles), boost, grid).update(
                w.slice as int,
                HiTileMeta { stamp: view, cover },
            )
        },
{
    let need: TargetNeed = ensure_hi_slot(s, kind, boost, grid, &bound, base_w);
    if boost < MIN_BOOST_BITS || boost > MAX_BOOST_BITS || grid == 0 || grid > MAX_HI_GRID {
        return None;
    }
    assert(grid == 1 || grid == 2);
    let cells: u64 = if grid == 1 {
        1
    } else {
        4
    };
    assert(cells == grid * grid) by {
        if grid == 1 {
            assert(grid * grid == 1) by (nonlinear_arith)
                requires
                    grid == 1,
            ;
        } else {
            assert(grid * grid == 4) by (nonlinear_arith)
                requires
                    grid == 2,
            ;
        }
    }
    let n: u32 = (s.rot_frame % cells) as u32;
    let tx: u32 = n % grid;
    let ty: u32 = n / grid;
    if tiles.last_grid != grid {
        tiles.last_grid = grid;
        tiles.blank();
    }
    let b: Binding = match bound {
        Some(b) => b,
        None => {
            return None;
        },
    };
    let slices: u32 = match kind {
        HiKind::Object => MAX_HI_SLICES,
        _ => MAX_HI_TILES,
    };
    let mut t = HiTarget {
        w: 2 * b.w,
        h: 2 * b.h,
        slices,
        format: b.format,
        cleared: false,
        live_cleared: false,
        captured: false,
    };
    match need {
        TargetNeed::Refused => {
            return None;
        },
        TargetNeed::Ready => match s.get_hi_target(kind) {
            Some(o) => {
                t = o;
            },
            None => {},
        },
        TargetNeed::Create => {
            if !made {
                return None;
            }
        },
    }
    s.set_hi_target(kind, Some(t));
    let is_object: bool = match kind {
        HiKind::Object => true,
        _ => false,
    };
    if live && !is_object {
        return None;
    }
    let slice: u32 = if live {
        LIVE_TILE
    } else {
        n
    };
    let clear: bool = if live {
        !t.live_cleared
    } else {
        !t.cleared
    };
    if live {
        t.live_cleared = true;
    } else {
        t.cleared = true;
    }
    s.set_hi_target(kind, Some(t));
    tiles.meta.set(slice as usize, HiTileMeta { stamp: view, cover });
    s.sub = Some(ScissorSub { base_w: b.w, right: 2 * b.w, bottom: 2 * b.h });
    s.saved = Some(b);
    s.saved_vp = true;
    s.active_kind = None;
    s.hi_window = Some(kind);
    s.hi_grid = grid;
    s.divert = true;
    Some(HiWindow { slice, tx, ty, clear })
}

/// What is put back when a window into a tile is closed.
#[derive(Clone, Copy, Debug)]
pub struct HiRestore {
    pub binding: Option<Binding>,
    pub viewport: bool,
    /// The scissor rectangle of the whole window, where its size is known.
    pub scissor: Option<(u32, u32)>,
}

/// The state with no window open, after a window into a tile.
pub open spec fn hi_window_closed(s: Capture) -> Capture {
    let c = Capture { divert: false, sub: None, ..s };
    match s.saved {
        Some(b) => {
            let d = Capture {
                saved: None,
                saved_vp: false,
                active_kind: None,
                hi_window: None,
                ..c
            };
            match s.hi_window {
                Some(kind) => match d.hi_target(kind) {
                    Some(t) => d.with_hi_target(kind, Some(HiTarget { captured: true, ..t })),
                    None => d,
                },
                None => d,
            }
        },
        None => c,
    }
}

/// Closes a window into a tile.
pub fn end_hi_capture(s: &mut Capture, base: (u32, u32)) -> (r: HiRestore)
    requires
        old(s).wf(),
    ensures
        final(s).wf(),
        *final(s) == if old(s).ready {
            hi_window_closed(*old(s))
        } else {
            *old(s)
        },
        r == if old(s).ready {
            (HiRestore {
                binding: old(s).saved,
                viewport: old(s).saved is Some && old(s).saved_vp,
                scissor: if base.0 > 0 && base.1 > 0 {
                    Some(base)
                } else {
                    None
                },
            })
        } else {
            (HiRestore { binding: None, viewport: false, scissor: None })
        },
{
    if !s.ready {
        return HiRestore { binding: None, viewport: false, scissor: None };
    }
    s.divert = false;
    s.sub = None;
    let scissor: Option<(u32, u32)> = if base.0 > 0 && base.1 > 0 {
        Some(base)
    } else {
        None
    };
    let saved: Option<Binding> = s.saved;
    let mut viewport: bool = false;
    match saved {
        Some(_) => {
            s.saved = None;
            viewport = s.saved_vp;
            s.saved_vp = false;
            s.active_kind = None;
            let kind: Option<HiKind> = s.hi_window;
            s.hi_window = None;
            match kind {
                Some(k) => match s.get_hi_target(k) {
                    Some(t) => {
                        s.set_hi_target(
                            k,
                            Some(
                                HiTarget {
                                    w: t.w,
                                    h: t.h,
                                    slices: t.slices,
                                    format: t.format,
                                    cleared: t.cleared,
                                    live_cleared: t.live_cleared,
                                    captured: true,
                                },
                            ),
                        );
                    },
                    None => {},
                },
                None => {},
            }
        },
        None => {},
    }
    HiRestore { binding: saved, viewport, scissor }
}

/// What the layers of a frame gave.
#[derive(Debug)]
pub struct FrameCapture {
    pub object: bool,
    pub belt: bool,
    pub elevated: bool,
    pub wire: bool,
    /// The magnified targets that are there; the tiles say what they hold.
    pub object_hi: bool,
    pub ground_hi: bool,
    pub belt_hi: bool,
    pub elevated_hi: bool,
    pub hi_grid: u32,
    pub hi_meta: Vec<HiTileMeta>,
    pub w: u32,
    pub h: u32,
}

pub open spec fn has_captured(t: Option<Target>) -> bool {
    t is Some && t->0.captured
}

/// Some layer was captured.
pub open spec fn any_captured(s: Capture) -> bool {
    has_captured(s.object) || has_captured(s.belt) || has_captured(s.elevated) || has_captured(
        s.wire,
    )
}

/// The target at the start of the next frame.
pub open spec fn fresh(t: Option<Target>) -> Option<Target> {
    match t {
        Some(t) => Some(Target { cleared: false, captured: false, ..t }),
        None => None,
    }
}

pub open spec fn hi_fresh(t: Option<HiTarget>) -> Option<HiTarget> {
    match t {
        Some(t) => Some(HiTarget { cleared: false, live_cleared: false, captured: false, ..t }),
        None => None,
    }
}

/// The state at the start of the next frame. A window that was left open is
/// closed.
pub open spec fn harvested(s: Capture) -> Capture {
    Capture {
        divert: false,
        active_kind: None,
        saved: None,
        object: fresh(s.object),
        belt: fresh(s.belt),
        elevated: fresh(s.elevated),
        wire: fresh(s.wire),
        object_hi: hi_fresh(s.object_hi),
        ground_hi: hi_fresh(s.ground_hi),
        belt_hi: hi_fresh(s.belt_hi),
        elevated_hi: hi_fresh(s.elevated_hi),
        ..s
    }
}

/// The size of the first layer that was captured.
pub open spec fn captured_size(s: Capture) -> (int, int) {
    if has_captured(s.object) {
        (s.object->0.w as int, s.object->0.h as int)
    } else if has_captured(s.belt) {
        (s.belt->0.w as int, s.belt->0.h as int)
    } else if has_captured(s.elevated) {
        (s.elevated->0.w as int, s.elevated->0.h as int)
    } else if has_captured(s.wire) {
        (s.wire->0.w as int, s.wire->0.h as int)
    } else {
        (0, 0)
    }
}

fn renew(t: Option<Target>) -> (r: (Option<Target>, bool, u32, u32))
    ensures
        r.0 == fresh(t),
        r.1 == has_captured(t),
        r.1 ==> r.2 == t->0.w && r.3 == t->0.h,
{
    match t {
        Some(t) => (
            Some(Target { w: t.w, h: t.h, format: t.format, cleared: false, captured: false }),
            t.captured,
            t.w,
            t.h,
        ),
        None => (None, false, 0, 0),
    }
}

fn hi_renew(t: Option<HiTarget>) -> (r: Option<HiTarget>)
    ensures
        r == hi_fresh(t),
{
    match t {
        Some(t) => Some(
            HiTarget {
                w: t.w,
                h: t.h,
                slices: t.slices,
                format: t.format,
                cleared: false,
                live_cleared: false,
                captured: false,
            },
        ),
        None => None,
    }
}

fn copy_meta(v: &Vec<HiTileMeta>) -> (r: Vec<HiTileMeta>)
    ensures
        r@ == v@,
{
    let mut r: Vec<HiTileMeta> = Vec::new();
    let mut i: usize = 0;
    while i < v.len()
        invariant
            i <= v.len(),
            r@ == v@.take(i as int),
        decreases v.len() - i,
    {
        r.push(v[i]);
        assert(v@.take(i + 1) =~= v@.take(i as int).push(v@[i as int]));
        i = i + 1;
    }
    assert(v@.take(i as int) =~= v@);
    r
}

/// The end of a frame: what was captured, and what has to be bound again where a
/// window was left open. Nothing is handed out where no layer was captured.
pub fn take_frame_capture(s: &mut Capture, tiles: &HiTiles) -> (r: (Option<FrameCapture>, Option<Binding>))
    requires
        old(s).wf(),
    ensures
        final(s).wf(),
        *final(s) == if old(s).ready {
            harvested(*old(s))
        } else {
            *old(s)
        },
        r.1 == if old(s).ready {
            old(s).saved
        } else {
            None
        },
        r.0 is Some <==> old(s).ready && any_captured(*old(s)),
        r.0 matches Some(f) ==> {
            &&& f.object == has_captured(old(s).object)
            &&& f.belt == has_captured(old(s).belt)
            &&& f.elevated == has_captured(old(s).elevated)
            &&& f.wire == has_captured(old(s).wire)
            &&& f.object_hi == (old(s).object_hi is Some)
            &&& f.ground_hi == (old(s).ground_hi is Some)
            &&& f.belt_hi == (old(s).belt_hi is Some)
            &&& f.elevated_hi == (old(s).elevated_hi is Some)
            &&& f.hi_grid == old(s).hi_grid
            &&& f.hi_meta@ == tiles.meta@
            &&& (f.w as int, f.h as int) == captured_size(*old(s))
        },
{
    if !s.ready {
        return (None, None);
    }
    s.divert = false;
    s.active_kind = None;
    let saved: Option<Binding> = s.saved;
    s.saved = None;
    let (object, got_object, ow, oh) = renew(s.object);
    let (belt, got_belt, bw, bh) = renew(s.belt);
    let (elevated, got_elevated, ew, eh) = renew(s.elevated);
    let (wire, got_wire, ww, wh) = renew(s.wire);
    s.object = object;
    s.belt = belt;
    s.elevated = elevated;
    s.wire = wire;
    s.object_hi = hi_renew(s.object_hi);
    s.ground_hi = hi_renew(s.ground_hi);
    s.belt_hi = hi_renew(s.belt_hi);
    s.elevated_hi = hi_renew(s.elevated_hi);
    let size: (u32, u32) = if got_object {
        (ow, oh)
    } else if got_belt {
        (bw, bh)
    } else if got_elevated {
        (ew, eh)
    } else {
        (ww, wh)
    };
    if !got_object && !got_belt && !got_elevated && !got_wire {
        return (None, saved);
    }
    (
        Some(
            FrameCapture {
                object: got_object,
                belt: got_belt,
                elevated: got_elevated,
                wire: got_wire,
                object_hi: s.object_hi.is_some(),
                ground_hi: s.ground_hi.is_some(),
                belt_hi: s.belt_hi.is_some(),
                elevated_hi: s.elevated_hi.is_some(),
                hi_grid: s.hi_grid,
                hi_meta: copy_meta(&tiles.meta),
                w: size.0,
                h: size.1,
            },
        ),
        saved,
    )
}

/// What happens to the windows within a frame.
pub ghost enum Step {
    /// A window into a layer is asked for: the layer, what is bound, the width of
    /// the window, and whether a missing target can be made.
    Begin(CaptureKind, Option<Binding>, u32, bool),
    End,
    /// A window into a tile is asked for: the target, the magnification, the tiles
    /// per axis, whether it is the live tile, what is bound, the width of the
    /// window, and whether a missing target can be made.
    BeginHi(HiKind, u32, u32, bool, Option<Binding>, u32, bool),
    EndHi,
    Enabled(bool),
    WorldRender(bool),
    Rotate,
}

/// The state after a step, once the device is up.
pub open spec fn stepped(s: Capture, step: Step) -> Capture {
    match step {
        Step::Begin(kind, bound, base_w, made) => if opens(s, kind, bound, base_w, made) {
            window_open(s, kind, bound->0)
        } else {
            s
        },
        Step::End => window_closed(s),
        Step::BeginHi(kind, boost, grid, live, bound, base_w, made) => if !hi_made(
            s,
            kind,
            boost,
            grid,
            bound,
            base_w,
            made,
        ) {
            s
        } else if live && kind != HiKind::Object {
            s.with_hi_target(kind, Some(hi_before(s, kind, bound->0)))
        } else {
            hi_window_open(s, kind, bound->0, grid, live)
        },
        Step::EndHi => hi_window_closed(s),
        Step::Enabled(on) => Capture { enabled: on, ..s },
        Step::WorldRender(on) => Capture { world_render: on, ..s },
        Step::Rotate => Capture {
            rot_frame: ((s.rot_frame + 1) % 0x1_0000_0000_0000_0000) as u64,
            ..s
        },
    }
}

/// The state after some steps.
pub open spec fn run(s: Capture, steps: Seq<Step>) -> Capture
    decreases steps.len(),
{
    if steps.len() == 0 {
        s
    } else {
        stepped(run(s, steps.drop_last()), steps.last())
    }
}

/// The layers into which a window was opened and closed in some steps.
pub open spec fn layers_done(s: Capture, steps: Seq<Step>) -> Set<CaptureKind>
    decreases steps.len(),
{
    if steps.len() == 0 {
        Set::empty()
    } else {
        let before = layers_done(s, steps.drop_last());
        match (steps.last(), run(s, steps.drop_last()).active_kind) {
            (Step::End, Some(kind)) => before.insert(kind),
            _ => before,
        }
    }
}

/// The layers that were captured, whose target then had to be made anew because
/// the world's changed, and which were not captured again.
pub open spec fn layers_lost(s: Capture, steps: Seq<Step>) -> Set<CaptureKind>
    decreases steps.len(),
{
    if steps.len() == 0 {
        Set::empty()
    } else {
        let at = run(s, steps.drop_last());
        let before = layers_lost(s, steps.drop_last());
        match steps.last() {
            Step::Begin(kind, bound, base_w, made) => if opens(at, kind, bound, base_w, made)
                && !fits(at.target(kind), bound->0) && layers_done(
                s,
                steps.drop_last(),
            ).contains(kind) {
                before.insert(kind)
            } else {
                before
            },
            Step::End => match at.active_kind {
                Some(kind) => before.remove(kind),
                None => before,
            },
            _ => before,
        }
    }
}

/// The start of a frame: the device is up, no window is open, and nothing was
/// captured.
pub open spec fn at_start(s: Capture) -> bool {
    &&& s.wf()
    &&& s.ready
    &&& s.saved is None
    &&& !any_captured(s)
}

/// Whatever is opened and closed in a frame, in any order, the layers that are
/// handed out at its end are those into which a window was opened and closed, but
/// for those that were lost, and something is handed out exactly where there are
/// such layers. At the end no window is open, the next frame starts with nothing
/// captured, and taking again at once gives nothing.
pub proof fn lemma_frame(s: Capture, steps: Seq<Step>)
    requires
        at_start(s),
    ensures
        ({
            let e = run(s, steps);
            let done = layers_done(s, steps);
            let lost = layers_lost(s, steps);
            &&& e.wf()
            &&& e.ready
            &&& e.hi_grid >= 1
            &&& e.active_kind matches Some(k) ==> e.target(k) is Some
            &&& forall|k: CaptureKind| #[trigger]
                has_captured(e.target(k)) <==> done.contains(k) && !lost.contains(k)
            &&& lost == Set::<CaptureKind>::empty() ==> (any_captured(e) <==> exists|k: CaptureKind|
                done.contains(k))
            &&& at_start(harvested(e))
            &&& !harvested(e).divert
        }),
    decreases steps.len(),
{
    let e = run(s, steps);
    let done = layers_done(s, steps);
    let lost = layers_lost(s, steps);
    if steps.len() > 0 {
        lemma_frame(s, steps.drop_last());
        let at = run(s, steps.drop_last());
        assert forall|k: CaptureKind| #[trigger]
            has_captured(e.target(k)) <==> done.contains(k) && !lost.contains(k) by {
            assert(has_captured(at.target(k)) <==> layers_done(s, steps.drop_last()).contains(k)
                && !layers_lost(s, steps.drop_last()).contains(k));
        }
    } else {
        assert forall|k: CaptureKind| !has_captured(#[trigger] e.target(k)) by {}
    }
    if lost == Set::<CaptureKind>::empty() {
        if any_captured(e) {
            let k = if has_captured(e.object) {
                CaptureKind::Object
            } else if has_captured(e.belt) {
                CaptureKind::Belt
            } else if has_captured(e.elevated) {
                CaptureKind::Elevated
            } else {
                CaptureKind::Wire
            };
            assert(has_captured(e.target(k)));
            assert(done.contains(k));
        }
        if exists|k: CaptureKind| done.contains(k) {
            let k = choose|k: CaptureKind| done.contains(k);
            assert(has_captured(e.target(k)));
        }
    }
}

/// A bind is of the world's target: by the same view, or by another view of the
/// same texture.
pub open spec fn is_world(s: Capture, first: u64, resource: Option<u64>) -> bool {
    s.divert && s.saved is Some && {
        ||| s.saved->0.rtv != 0 && first == s.saved->0.rtv
        ||| first != 0 && s.saved->0.res != 0 && resource == Some(s.saved->0.res)
    }
}

/// Whether a bind is redirected to the window's target. `first` is the first of
/// the views that are bound, and `resource` the texture behind it.
pub fn redirects(s: &Capture, views: u32, first: u64, resource: Option<u64>) -> (r: bool)
    ensures
        r == (views >= 1 && is_world(*s, first, resource)),
{
    if !s.divert || views < 1 {
        return false;
    }
    match s.saved {
        Some(b) => {
            if b.rtv != 0 && first == b.rtv {
                return true;
            }
            if first == 0 || b.res == 0 {
                return false;
            }
            match resource {
                Some(x) => x == b.res,
                None => false,
            }
        },
        None => false,
    }
}

/// The views that are bound in place of others: at most eight are, and the first
/// is the window's target.
pub open spec fn redirected(views: Seq<u64>, target: u64) -> Seq<u64> {
    Seq::new(
        8,
        |i: int| if i == 0 {
            target
        } else if i < views.len() {
            views[i]
        } else {
            0u64
        },
    )
}

/// The views that are bound in place of others.
pub fn redirect_views(views: &Vec<u64>, target: u64) -> (r: Vec<u64>)
    requires
        views.len() >= 1,
    ensures
        r@ == redirected(views@, target),
{
    let mut r: Vec<u64> = Vec::new();
    r.push(target);
    let mut i: usize = 1;
    while i < 8
        invariant
            1 <= i <= 8,
            r@ == redirected(views@, target).take(i as int),
        decreases 8 - i,
    {
        if i < views.len() {
            r.push(views[i]);
        } else {
            r.push(0);
        }
        assert(redirected(views@, target).take(i + 1) =~= redirected(views@, target).take(
            i as int,
        ).push(redirected(views@, target)[i as int]));
        i = i + 1;
    }
    assert(redirected(views@, target).take(8) =~= redirected(views@, target));
    r
}

pub open spec fn magnitude(n: int) -> int {
    if n < 0 {
        -n
    } else {
        n
    }
}

/// The scissor rectangle is that of the whole view, give or take two pixels.
pub open spec fn full_scissor(sub: ScissorSub, left: i32, right: i32) -> bool {
    magnitude(right - left - sub.base_w) <= 2 && magnitude(left as int) <= 2
}

/// The size of the scissor rectangle that is set in place of another, where the
/// other one is that of the whole view and a tile is being drawn.
pub fn substitute_scissor(s: &Capture, left: i32, right: i32) -> (r: Option<(u32, u32)>)
    ensures
        r == match s.sub {
            Some(sub) => if full_scissor(sub, left, right) {
                Some((sub.right, sub.bottom))
            } else {
                None
            },
            None => None,
        },
{
    match s.sub {
        Some(sub) => {
            let d: i64 = right as i64 - left as i64 - sub.base_w as i64;
            if -2 <= d && d <= 2 && -2 <= left && left <= 2 {
                Some((sub.right, sub.bottom))
            } else {
                None
            }
        },
        None => None,
    }
}

/// While a window is open no other opens.
pub proof fn lemma_one_window(s: Capture, kind: CaptureKind, bound: Option<Binding>, base_w: u32, made: bool)
    requires
        s.wf(),
        s.divert,
    ensures
        !opens(s, kind, bound, base_w, made),
        forall|k: HiKind, boost: u32, grid: u32| !hi_made(s, k, boost, grid, bound, base_w, made),
{
}

/// A window into a layer that is opened and closed leaves no window, marks the
/// layer as captured, and changes no other target.
pub proof fn lemma_open_close(s: Capture, kind: CaptureKind, b: Binding, other: CaptureKind)
    requires
        s.wf(),
        s.saved is None,
    ensures
        ({
            let e = window_closed(window_open(s, kind, b));
            &&& e.wf()
            &&& e.saved is None
            &&& !e.divert
            &&& has_captured(e.target(kind))
            &&& e.target(kind)->0.w == b.w && e.target(kind)->0.h == b.h
            &&& other != kind ==> e.target(other) == s.target(other)
            &&& forall|k: HiKind| e.hi_target(k) == s.hi_target(k)
        }),
{
}

/// What a frame left open is closed at its end, and the next frame starts with
/// nothing cleared and nothing captured.
pub proof fn lemma_harvest_closes(s: Capture)
    ensures
        harvested(s).saved is None,
        !harvested(s).divert,
        forall|k: CaptureKind| !has_captured(#[trigger] harvested(s).target(k)),
        harvested(harvested(s)) == harvested(s),
{
}

/// In as many frames as there are tiles each tile has its turn once.
pub proof fn lemma_tiles_take_turns(frame: u64, grid: u32, slice: int)
    requires
        1 <= grid <= MAX_HI_GRID,
        0 <= slice < grid * grid,
        frame + grid * grid <= u64::MAX,
    ensures
        exists|k: int|
            0 <= k < grid * grid && #[trigger] turn_of((frame + k) as u64, grid) == slice && forall|j: int|
                0 <= j < grid * grid && #[trigger] turn_of((frame + j) as u64, grid) == slice ==> j == k,
{
    if grid == 1 {
        assert(grid * grid == 1) by (nonlinear_arith)
            requires
                grid == 1,
        ;
        assert(turn_of((frame + 0) as u64, grid) == slice);
    } else {
        assert(grid * grid == 4) by (nonlinear_arith)
            requires
                grid == 2,
        ;
        let k = (slice - frame) % 4;
        assert(turn_of((frame + k) as u64, grid) == slice);
        assert forall|j: int| 0 <= j < 4 && #[trigger] turn_of((frame + j) as u64, grid) == slice implies j == k by {}
    }
}

/// A window into a layer opens exactly where the device is up, none is open, the
/// world's target is bound and at least as wide as the window, and the layer has a
/// target of the same size and format or one could be made.
pub proof fn lemma_when_a_window_opens(
    s: Capture,
    kind: CaptureKind,
    bound: Option<Binding>,
    base_w: u32,
    made: bool,
)
    ensures
        ({
            let t = match kind {
                CaptureKind::Object => s.object,
                CaptureKind::Belt => s.belt,
                CaptureKind::Elevated => s.elevated,
                CaptureKind::Wire => s.wire,
            };
            let usable = t is Some && bound is Some && t->0.w == bound->0.w && t->0.h == bound->0.h
                && t->0.format == bound->0.format;
            opens(s, kind, bound, base_w, made) <==> s.ready && s.saved is None && bound is Some && base_w
                != 0 && bound->0.w >= base_w && (usable || made)
        }),
{
}

/// An open window keeps what was bound, and draws to a cleared target of its size;
/// what the layer already holds this frame stays, unless its target had to be made
/// anew. Closing it gives back no other layer than its own as captured.
pub proof fn lemma_window_draws_to_its_layer(s: Capture, kind: CaptureKind, b: Binding)
    requires
        s.wf(),
        s.saved is None,
    ensures
        ({
            let o = window_open(s, kind, b);
            let e = window_closed(o);
            let t = Target { w: b.w, h: b.h, format: b.format, cleared: true, captured: true };
            let kept = |was: Option<Target>|
                was is Some && was->0.w == b.w && was->0.h == b.h && was->0.format == b.format
                    && was->0.captured;
            &&& o.divert && o.saved == Some(b) && o.active_kind == Some(kind) && o.hi_window == s.hi_window
            &&& o.ready == s.ready && o.enabled == s.enabled && o.rot_frame == s.rot_frame && o.sub == s.sub
            &&& kind == CaptureKind::Object ==> e.object == Some(t) && o.object == Some(
                Target { captured: kept(s.object), ..t },
            ) && e.belt == s.belt && e.elevated == s.elevated && e.wire == s.wire
            &&& kind == CaptureKind::Belt ==> e.belt == Some(t) && o.belt == Some(
                Target { captured: kept(s.belt), ..t },
            ) && e.object == s.object && e.elevated == s.elevated && e.wire == s.wire
            &&& kind == CaptureKind::Elevated ==> e.elevated == Some(t) && o.elevated == Some(
                Target { captured: kept(s.elevated), ..t },
            ) && e.object == s.object && e.belt == s.belt && e.wire == s.wire
            &&& kind == CaptureKind::Wire ==> e.wire == Some(t) && o.wire == Some(
                Target { captured: kept(s.wire), ..t },
            ) && e.object == s.object && e.belt == s.belt && e.elevated == s.elevated
            &&& !e.divert && e.saved is None && e.active_kind is None
        }),
{
}

/// A window into a tile draws to a target twice as large as the world's, with four
/// tiles, and a fifth that is live where it is of what stands up. While it is open
/// the scissor rectangle of the world is replaced by that of the tile. Closing it
/// marks the target as captured and puts everything back.
pub proof fn lemma_window_into_a_tile(s: Capture, kind: HiKind, b: Binding, grid: u32, live: bool)
    requires
        s.wf(),
        s.saved is None,
        b.w < 0x4000_0000,
        b.h < 0x4000_0000,
    ensures
        ({
            let o = hi_window_open(s, kind, b, grid, live);
            let e = hi_window_closed(o);
            let was = match kind {
                HiKind::Object => s.object_hi,
                HiKind::Ground => s.ground_hi,
                HiKind::Belt => s.belt_hi,
                HiKind::Elevated => s.elevated_hi,
            };
            let now = match kind {
                HiKind::Object => o.object_hi,
                HiKind::Ground => o.ground_hi,
                HiKind::Belt => o.belt_hi,
                HiKind::Elevated => o.elevated_hi,
            };
            let done = match kind {
                HiKind::Object => e.object_hi,
                HiKind::Ground => e.ground_hi,
                HiKind::Belt => e.belt_hi,
                HiKind::Elevated => e.elevated_hi,
            };
            let t = now->0;
            let usable = was is Some && was->0.w == t.w && was->0.h == t.h && was->0.slices == t.slices
                && was->0.format == t.format;
            &&& now is Some && t.w == 2 * b.w && t.h == 2 * b.h && t.format == b.format
            &&& kind == HiKind::Object ==> t.slices == 5
            &&& kind != HiKind::Object ==> t.slices == 4
            &&& live ==> t.live_cleared && t.cleared == (usable && was->0.cleared)
            &&& !live ==> t.cleared && t.live_cleared == (usable && was->0.live_cleared)
            &&& t.captured == (usable && was->0.captured)
            &&& done == Some(HiTarget { captured: true, ..t })
            &&& o.divert && o.saved == Some(b) && o.saved_vp && o.hi_window == Some(kind) && o.hi_grid == grid
            &&& o.sub == Some(ScissorSub { base_w: b.w, right: t.w, bottom: t.h })
            &&& !e.divert && e.saved is None && !e.saved_vp && e.hi_window is None && e.sub is None
            &&& kind != HiKind::Object ==> e.object_hi == s.object_hi
            &&& kind != HiKind::Ground ==> e.ground_hi == s.ground_hi
            &&& kind != HiKind::Belt ==> e.belt_hi == s.belt_hi
            &&& kind != HiKind::Elevated ==> e.elevated_hi == s.elevated_hi
            &&& e.object == s.object && e.belt == s.belt && e.elevated == s.elevated && e.wire == s.wire
        }),
{
}

/// The tiles take turns from one frame to the next, row by row; the live tile is
/// none of them.
pub proof fn lemma_turns_of_tiles(frame: u64, grid: u32)
    requires
        grid == 1 || grid == 2,
    ensures
        grid == 1 ==> turn_of(frame, grid) == 0,
        grid == 2 ==> turn_of(frame, grid) == frame % 4,
        slice_of(frame, grid, false) == turn_of(frame, grid),
        slice_of(frame, grid, true) == 4,
{
    if grid == 2 {
        assert(grid * grid == 4) by (nonlinear_arith)
            requires
                grid == 2,
        ;
    } else {
        assert(grid * grid == 1) by (nonlinear_arith)
            requires
                grid == 1,
        ;
    }
}

/// A window into a tile is asked for with a magnification from 1.01 to 16 and one or
/// two tiles per axis, and opens under the same conditions as one into a layer.
pub proof fn lemma_when_a_tile_opens(
    s: Capture,
    kind: HiKind,
    boost: u32,
    grid: u32,
    bound: Option<Binding>,
    base_w: u32,
    made: bool,
)
    ensures
        ({
            let t = match kind {
                HiKind::Object => s.object_hi,
                HiKind::Ground => s.ground_hi,
                HiKind::Belt => s.belt_hi,
                HiKind::Elevated => s.elevated_hi,
            };
            let slices: u32 = if kind == HiKind::Object {
                5
            } else {
                4
            };
            let usable = t is Some && bound is Some && t->0.w == 2 * bound->0.w && t->0.h == 2 * bound->0.h
                && t->0.slices == slices && t->0.format == bound->0.format;
            hi_made(s, kind, boost, grid, bound, base_w, made) <==> 0x3F81_47AE <= boost <= 0x4180_0000 && (
            grid == 1 || grid == 2) && s.ready && s.saved is None && bound is Some && base_w != 0
                && bound->0.w >= base_w && (usable || made)
        }),
{
}

/// At the end of a frame every target is kept, with nothing cleared and nothing
/// captured.
pub proof fn lemma_targets_survive_the_frame(s: Capture)
    ensures
        ({
            let e = harvested(s);
            let renewed = |a: Option<Target>, b: Option<Target>|
                match a {
                    Some(t) => b == Some(Target { cleared: false, captured: false, ..t }),
                    None => b is None,
                };
            let hi_renewed = |a: Option<HiTarget>, b: Option<HiTarget>|
                match a {
                    Some(t) => b == Some(
                        HiTarget { cleared: false, live_cleared: false, captured: false, ..t },
                    ),
                    None => b is None,
                };
            &&& renewed(s.object, e.object) && renewed(s.belt, e.belt) && renewed(s.elevated, e.elevated)
                && renewed(s.wire, e.wire)
            &&& hi_renewed(s.object_hi, e.object_hi) && hi_renewed(s.ground_hi, e.ground_hi) && hi_renewed(
                s.belt_hi,
                e.belt_hi,
            ) && hi_renewed(s.elevated_hi, e.elevated_hi)
            &&& e.ready == s.ready && e.enabled == s.enabled && e.world_render == s.world_render
                && e.rot_frame == s.rot_frame && e.hi_grid == s.hi_grid
        }),
{
}

/// While a window is open, a bind of the world's target goes to the window instead,
/// by whichever view it is bound, and no other bind does.
pub proof fn lemma_binds_of_the_world_are_redirected(
    s: &Capture,
    views: u32,
    first: u64,
    resource: Option<u64>,
    r: bool,
)
    requires
        s.wf(),
        call_ensures(redirects, (s, views, first, resource), r),
    ensures
        s.saved is None ==> !r,
        s.saved matches Some(b) ==> (r <==> views > 0 && ((b.rtv != 0 && first == b.rtv) || (first != 0
            && b.res != 0 && resource == Some(b.res)))),
{
}

/// The other views of a bind that is redirected stay where they are, up to eight.
pub proof fn lemma_other_views_stay(views: &Vec<u64>, target: u64, r: Vec<u64>, i: int)
    requires
        call_ensures(redirect_views, (views, target), r),
        0 <= i < 8,
    ensures
        r@.len() == 8,
        r@[0] == target,
        0 < i < views@.len() ==> r@[i] == views@[i],
        i > 0 && i >= views@.len() ==> r@[i] == 0,
{
}

/// While a tile is drawn, a scissor rectangle as wide as the world is replaced by the
/// tile's; a narrower one, or one that starts further right, is not.
pub proof fn lemma_scissor(s: &Capture, left: i32, right: i32, r: Option<(u32, u32)>)
    requires
        call_ensures(substitute_scissor, (s, left, right), r),
    ensures
        s.sub is None ==> r is None,
        s.sub matches Some(t) ==> (r is Some <==> -2 <= left <= 2 && t.base_w - 2 <= right - left <= t.base_w
            + 2),
        s.sub matches Some(t) ==> r is Some ==> r == Some((t.right, t.bottom)),
{
}

/// What is known of the tiles is forgotten where their number changes, and only there.
pub proof fn lemma_tiles_forgotten(t: HiTiles, boost: u32, grid: u32, i: int)
    requires
        t.wf(),
        0 <= i < 5,
    ensures
        ({
            let asked = 0x3F81_47AE <= boost <= 0x4180_0000 && 1 <= grid <= 2;
            let r = tiles_before(t, boost, grid);
            &&& r.len() == 5
            &&& asked && t.last_grid != grid ==> r[i].cover == 0 && r[i].stamp.span_x == 0 && r[i].stamp.span_y == 0
            &&& !asked || t.last_grid == grid ==> r == t.meta@
        }),
{
}

/// What was captured is as large as the first of its layers.
pub proof fn lemma_size_of_a_capture(s: Capture)
    ensures
        ({
            let got = |t: Option<Target>| t is Some && t->0.captured;
            let (w, h) = captured_size(s);
            &&& got(s.object) ==> w == s.object->0.w && h == s.object->0.h
            &&& !got(s.object) && got(s.belt) ==> w == s.belt->0.w && h == s.belt->0.h
            &&& !got(s.object) && !got(s.belt) && got(s.elevated) ==> w == s.elevated->0.w && h == s.elevated->0.h
            &&& !got(s.object) && !got(s.belt) && !got(s.elevated) && got(s.wire) ==> w == s.wire->0.w && h
                == s.wire->0.h
            &&& any_captured(s) <==> got(s.object) || got(s.belt) || got(s.elevated) || got(s.wire)
        }),
{
}

} // verus!
