//! Sprites: which layer they are drawn in, which of them are recorded, and how
//! the ranges of layers are split for capturing.

use crate::billboards::{record, BbRect, Billboards, BillboardsSpec, MAX_RECTS};
use crate::capture::CaptureKind;
use crate::draw::DrawContext;
use crate::frame::{ViewRect, MIN_SPAN};
use crate::hooks::MapPos;
use vstd::prelude::*;

verus! {

/// The layer in which a sprite is drawn while layers are captured: belts and
/// rails go to a late layer of their own, items on belts above them, and what
/// stands low on the ground to the objects.
pub open spec fn layer_for(layer: u8) -> u8 {
    if layer == 68 || layer == 76 || layer == 84 || layer == 96 || layer == 97 || layer == 100
        || layer == 104 || layer == 105 || layer == 117 {
        155
    } else if layer == 109 {
        156
    } else if layer == 118 || layer == 119 {
        121
    } else {
        layer
    }
}

pub fn retarget_layer(layer: u8) -> (r: u8)
    ensures
        r == layer_for(layer),
{
    if layer == 68 || layer == 76 || layer == 84 || layer == 96 || layer == 97 || layer == 100
        || layer == 104 || layer == 105 || layer == 117 {
        155
    } else if layer == 109 {
        156
    } else if layer == 118 || layer == 119 {
        121
    } else {
        layer
    }
}

/// A layer of belts or rails among those of the ground.
pub open spec fn belt_layer(l: u8) -> bool {
    l == 65 || l == 68 || l == 76 || l == 84 || l == 96 || l == 97 || l == 100 || l == 104 || l
        == 105 || l == 109 || l == 117
}

pub fn is_belt_layer(l: u8) -> (r: bool)
    ensures
        r == belt_layer(l),
{
    l == 65 || l == 68 || l == 76 || l == 84 || l == 96 || l == 97 || l == 100 || l == 104 || l
        == 105 || l == 109 || l == 117
}

/// The layer in which a sprite is drawn.
pub fn retag(enabled: bool, layer: u8) -> (r: u8)
    ensures
        r == if enabled {
            layer_for(layer)
        } else {
            layer
        },
{
    if enabled {
        retarget_layer(layer)
    } else {
        layer
    }
}

/// A layer that was chosen is not chosen anew, and the layers of belts and items
/// are captured as belts.
pub proof fn lemma_retag_settles(layer: u8)
    ensures
        layer_for(layer_for(layer)) == layer_for(layer),
        belt_layer(layer) && layer != 65 ==> 155 <= layer_for(layer) < 159,
        layer == 109 ==> layer_for(layer) > layer_for(117),
{
}

/// A sprite that stands up: by its layer, or by what is being drawn.
pub open spec fn stands(c: DrawContext, layer: u8) -> bool {
    118 <= layer < 133 || c.entity_depth > 0 || c.in_character
}

/// Whether the orientation of a sprite is turned with the camera.
pub fn rotated_arg_for(c: &DrawContext, present: bool, finite: bool, layer: u8, enabled: bool, yaw: i32) -> (r: bool)
    ensures
        r == (present && finite && stands(*c, layer) && enabled && (yaw > 10 || yaw < -10)),
{
    let billboard: bool = (118 <= layer && layer < 133) || c.entity_depth > 0 || c.in_character;
    present && finite && billboard && enabled && (yaw > 10 || yaw < -10)
}

/// Inside the draw of a building with a direction, arms are laid flat and keep
/// their orientation.
pub fn arm_is_flat(c: &DrawContext) -> (r: bool)
    ensures
        r == (c.static_depth > 0),
{
    c.static_depth > 0
}

/// The bits that mark shadows and lights, which are drawn elsewhere.
pub const SHADOW_OR_LIGHT_BITS: u16 = 0x6;

/// A sprite of an object: by its layer. Wires have a plane of their own.
pub open spec fn object_layer(layer: u8) -> bool {
    120 <= layer < 133 && layer != 131
}

/// The sprite is one that is recorded, as far as can be told without its size.
pub open spec fn recordable(c: DrawContext, enabled: bool, flags: Option<u16>, main_view: bool) -> bool {
    &&& object_layer(c.layer) || c.in_character || c.entity_depth > 0
    &&& enabled
    &&& flags is Some ==> flags->0 & SHADOW_OR_LIGHT_BITS == 0
    &&& main_view
}

/// Whether a sprite is recorded, as far as can be told without its size. The
/// game draws everything a second time for another view, which must not be
/// recorded.
pub fn is_recordable(c: &DrawContext, enabled: bool, flags: Option<u16>, main_view: bool) -> (r: bool)
    ensures
        r == recordable(*c, enabled, flags, main_view),
{
    let object: bool = 120 <= c.layer && c.layer < 133 && c.layer != 131;
    if !(object || c.in_character || c.entity_depth > 0) || !enabled {
        return false;
    }
    match flags {
        Some(f) => {
            if (f & SHADOW_OR_LIGHT_BITS) != 0 {
                return false;
            }
        },
        None => {},
    }
    main_view
}

/// What the size and the place of a sprite say.
#[derive(Clone, Copy, PartialEq, Eq, Structural, Debug)]
pub struct SizeTests {
    /// The view's width, span and scale agree: the game's second pass fails this.
    pub consistent: bool,
    /// It is larger than a twentieth of a pixel, and smaller than four views.
    pub sensible: bool,
    /// It is smaller than half the view: the cone of a lamp is not.
    pub below_half_view: bool,
    /// It touches the view.
    pub visible: bool,
    /// It is taller than 0.6 of its width.
    pub taller_than_player_shadow: bool,
    /// It is taller than 0.35 of its width.
    pub taller_than_vehicle_shadow: bool,
    pub tint: u32,
}

/// The part is recorded: what moves must be small and no flat shadow.
pub open spec fn part_kept(c: DrawContext, t: SizeTests) -> bool {
    &&& t.consistent
    &&& t.sensible
    &&& t.visible
    &&& t.tint != 0
    &&& c.in_character || c.entity_depth > 0 ==> t.below_half_view
    &&& c.in_character ==> t.taller_than_player_shadow
    &&& !c.in_character && c.entity_depth > 0 ==> t.taller_than_vehicle_shadow
}

/// Whether a part of a sprite is recorded, by its size and its place.
pub fn keeps_part(c: &DrawContext, t: &SizeTests) -> (r: bool)
    ensures
        r == part_kept(*c, *t),
{
    let moving: bool = c.in_character || c.entity_depth > 0;
    let no_shadow: bool = if c.in_character {
        t.taller_than_player_shadow
    } else if c.entity_depth > 0 {
        t.taller_than_vehicle_shadow
    } else {
        true
    };
    t.consistent && t.sensible && t.tint != 0 && (!moving || t.below_half_view) && t.visible
        && no_shadow
}

/// The view under which a sprite was placed; none where the rectangle is empty.
pub open spec fn own_stamp(l: i32, t: i32, r: i32, b: i32) -> ViewRect {
    if r - l > MIN_SPAN && b - t > MIN_SPAN {
        ViewRect { left: l, top: t, span_x: (r - l) as i32, span_y: (b - t) as i32 }
    } else {
        ViewRect { left: 0, top: 0, span_x: 0, span_y: 0 }
    }
}

/// Where a sprite was placed, as the bits of 32-bit floats, and under which view.
#[derive(Clone, Copy, PartialEq, Eq, Structural, Debug)]
pub struct Placed {
    pub cx: u32,
    pub cy: u32,
    pub hw: u32,
    pub hh: u32,
    /// Its position on the map, where it has one.
    pub pos: Option<MapPos>,
    /// Its place on the screen, which stands in otherwise.
    pub screen: MapPos,
    /// The edges of the view, in 256ths of a tile.
    pub left: i32,
    pub top: i32,
    pub right: i32,
    pub bottom: i32,
}

impl Placed {
    /// The spans of the view fit 32 bits.
    pub open spec fn spans_fit(self) -> bool {
        i32::MIN <= self.right - self.left <= i32::MAX && i32::MIN <= self.bottom - self.top
            <= i32::MAX
    }
}

/// The rectangle that is recorded for a placed sprite.
pub open spec fn rect_of(c: DrawContext, p: Placed) -> BbRect {
    let moving = c.in_character || c.entity_depth > 0;
    let at = match p.pos {
        Some(q) => q,
        None => p.screen,
    };
    BbRect {
        cx: p.cx,
        cy: p.cy,
        hw: p.hw,
        hh: p.hh,
        kx: at.x,
        ky: at.y,
        player: c.in_character,
        unit: c.unit_depth > 0,
        flat: c.in_flat,
        fly: c.in_fly,
        elevated_flat: c.flat_elevated,
        stamp: own_stamp(p.left, p.top, p.right, p.bottom),
        special: moving,
        grp: if moving {
            c.serial
        } else {
            0
        },
    }
}

fn placed_rect(c: &DrawContext, p: &Placed) -> (r: BbRect)
    requires
        p.spans_fit(),
    ensures
        r == rect_of(*c, *p),
{
    let moving: bool = c.in_character || c.entity_depth > 0;
    let at: MapPos = match p.pos {
        Some(q) => q,
        None => p.screen,
    };
    let stamp: ViewRect = if p.right - p.left > MIN_SPAN && p.bottom - p.top > MIN_SPAN {
        ViewRect {
            left: p.left,
            top: p.top,
            span_x: p.right - p.left,
            span_y: p.bottom - p.top,
        }
    } else {
        ViewRect { left: 0, top: 0, span_x: 0, span_y: 0 }
    };
    BbRect {
        cx: p.cx,
        cy: p.cy,
        hw: p.hw,
        hh: p.hh,
        kx: at.x,
        ky: at.y,
        player: c.in_character,
        unit: c.unit_depth > 0,
        flat: c.in_flat,
        fly: c.in_fly,
        elevated_flat: c.flat_elevated,
        stamp,
        special: moving,
        grp: if moving {
            c.serial
        } else {
            0
        },
    }
}

/// Takes note of a sprite that the game has placed, where it is one that stands
/// up or moves, is drawn for the main view and is visible.
pub fn hooked_place_sprite(
    b: &mut Billboards,
    c: &DrawContext,
    enabled: bool,
    flags: Option<u16>,
    main_view: bool,
    tests: &SizeTests,
    p: &Placed,
)
    requires
        old(b).wf(),
        p.spans_fit(),
    ensures
        final(b).wf(),
        final(b)@ == if recordable(*c, enabled, flags, main_view) && part_kept(*c, *tests) && old(
            b,
        )@.pending.len() < MAX_RECTS {
            (BillboardsSpec { pending: old(b)@.pending.push(rect_of(*c, *p)), ..old(b)@ })
        } else {
            old(b)@
        },
{
    if is_recordable(c, enabled, flags, main_view) && keeps_part(c, tests) {
        record(b, placed_rect(c, p));
    }
}

/// What becomes of a range of layers.
#[derive(Clone, Copy, PartialEq, Eq, Structural, Debug)]
pub enum RangeUse {
    /// It is captured.
    Capture(CaptureKind),
    /// It is of the ground, of which only the belts are captured.
    Ground,
    /// It is drawn as the game does.
    Plain,
}

/// What becomes of a range of layers.
pub open spec fn range_use(capturing: bool, from: u8, to: u8) -> RangeUse {
    if !capturing {
        RangeUse::Plain
    } else if 120 <= from < 133 && to <= 133 {
        RangeUse::Capture(CaptureKind::Object)
    } else if 155 <= from < 159 && to <= 159 {
        RangeUse::Capture(CaptureKind::Belt)
    } else if 133 <= from < 153 && to <= 153 {
        RangeUse::Capture(CaptureKind::Elevated)
    } else if from < 120 {
        RangeUse::Ground
    } else {
        RangeUse::Plain
    }
}

/// What becomes of a range of layers: ranges are captured only while the world
/// is drawn and the view is turned.
pub fn hooked_draw_entities(enabled: bool, world_render: bool, from: u8, to: u8) -> (r: RangeUse)
    ensures
        r == range_use(enabled && world_render, from, to),
{
    if !(enabled && world_render) {
        RangeUse::Plain
    } else if 120 <= from && from < 133 && to <= 133 {
        RangeUse::Capture(CaptureKind::Object)
    } else if 155 <= from && from < 159 && to <= 159 {
        RangeUse::Capture(CaptureKind::Belt)
    } else if 133 <= from && from < 153 && to <= 153 {
        RangeUse::Capture(CaptureKind::Elevated)
    } else if from < 120 {
        RangeUse::Ground
    } else {
        RangeUse::Plain
    }
}

/// A part of a range of layers, up to but not with `to`, and what it is captured
/// as.
#[derive(Clone, Copy, PartialEq, Eq, Structural, Debug)]
pub struct Segment {
    pub from: u8,
    pub to: u8,
    pub kind: CaptureKind,
}

/// The layer of wires.
pub const WIRE_LAYER: u8 = 131;

/// The parts of a range: a range of objects gives up its wires.
pub open spec fn object_segments(from: u8, to: u8, kind: CaptureKind) -> Seq<Segment> {
    if kind == CaptureKind::Object && from <= 131 && to > 131 {
        let head = if from < 131 {
            seq![Segment { from, to: 131, kind: CaptureKind::Object }]
        } else {
            Seq::<Segment>::empty()
        };
        let wires = head.push(Segment { from: 131, to: 132, kind: CaptureKind::Wire });
        if to > 132 {
            wires.push(Segment { from: 132, to, kind: CaptureKind::Object })
        } else {
            wires
        }
    } else {
        seq![Segment { from, to, kind }]
    }
}

/// Splits a range: wires are captured on their own, since they hang between
/// poles and belong to no entity.
pub fn divert_object_range(from: u8, to: u8, kind: CaptureKind) -> (r: Vec<Segment>)
    ensures
        r@ == object_segments(from, to, kind),
{
    let mut segs: Vec<Segment> = Vec::new();
    let objects: bool = match kind {
        CaptureKind::Object => true,
        _ => false,
    };
    if objects && from <= WIRE_LAYER && to > WIRE_LAYER {
        if from < WIRE_LAYER {
            segs.push(Segment { from, to: WIRE_LAYER, kind: CaptureKind::Object });
        }
        assert(segs@ =~= if from < 131 {
            seq![Segment { from, to: 131, kind: CaptureKind::Object }]
        } else {
            Seq::<Segment>::empty()
        });
        segs.push(Segment { from: WIRE_LAYER, to: 132, kind: CaptureKind::Wire });
        if to > 132 {
            segs.push(Segment { from: 132, to, kind: CaptureKind::Object });
        }
    } else {
        segs.push(Segment { from, to, kind });
        assert(segs@ =~= seq![Segment { from, to, kind }]);
    }
    segs
}

/// The parts of a range follow one another from its start to its end, and only
/// the wires' layer is captured as wires.
pub proof fn lemma_object_segments_cover(from: u8, to: u8, kind: CaptureKind)
    requires
        from < to,
        kind != CaptureKind::Wire,
    ensures
        ({
            let s = object_segments(from, to, kind);
            &&& s.len() > 0
            &&& s[0].from == from
            &&& s.last().to == to
            &&& forall|i: int, j: int|
                0 <= i && j == i + 1 && j < s.len() ==> (#[trigger] s[i]).to == (#[trigger] s[j]).from
            &&& forall|i: int| 0 <= i < s.len() ==> (#[trigger] s[i]).from < s[i].to
            &&& forall|i: int| 0 <= i < s.len() && (#[trigger] s[i]).kind == CaptureKind::Wire ==> s[i].from
                == 131 && s[i].to == 132
            &&& forall|i: int|
                0 <= i < s.len() && kind == CaptureKind::Object && (#[trigger] s[i]).kind
                    == CaptureKind::Object ==> s[i].to <= 131 || s[i].from >= 132
        }),
{
}

/// Whether the parts of a range are drawn once more into the tiles: objects are,
/// where any part was captured and the view is magnified enough.
pub fn replays(any_captured: bool, kind: CaptureKind, magnified: bool) -> (r: bool)
    ensures
        r == (any_captured && kind == CaptureKind::Object && magnified),
{
    match kind {
        CaptureKind::Object => any_captured && magnified,
        _ => false,
    }
}

/// A part of a range of the ground.
#[derive(Clone, Copy, PartialEq, Eq, Structural, Debug)]
pub struct GroundSegment {
    pub from: u8,
    pub to: u8,
    pub belt: bool,
}

/// The parts of the layers from `from` up to `l`, as runs of layers that are all
/// of belts or all of something else.
pub open spec fn ground_segments(from: u8, l: int) -> Seq<GroundSegment>
    decreases l - from,
{
    if l <= from + 1 {
        seq![GroundSegment { from, to: l as u8, belt: belt_layer(from) }]
    } else {
        let before = ground_segments(from, l - 1);
        let last = before.last();
        if belt_layer((l - 1) as u8) == last.belt {
            before.drop_last().push(GroundSegment { to: l as u8, ..last })
        } else {
            before.push(
                GroundSegment {
                    from: (l - 1) as u8,
                    to: l as u8,
                    belt: belt_layer((l - 1) as u8),
                },
            )
        }
    }
}

proof fn lemma_ground_nonempty(from: u8, l: int)
    ensures
        ground_segments(from, l).len() > 0,
        l > from ==> ground_segments(from, l).last().to == l as u8,
    decreases l - from,
{
    if l > from + 1 {
        lemma_ground_nonempty(from, l - 1);
    }
}

/// Splits a range of the ground into runs of belts and of what is none.
pub fn divert_ground_range(from: u8, to: u8) -> (r: Vec<GroundSegment>)
    requires
        from < 120,
    ensures
        r@ == ground_segments(from, to as int),
{
    let mut segs: Vec<GroundSegment> = Vec::new();
    if to <= from + 1 {
        segs.push(GroundSegment { from, to, belt: is_belt_layer(from) });
        assert(segs@ =~= ground_segments(from, to as int));
        return segs;
    }
    let mut s: u8 = from;
    let mut cur: bool = is_belt_layer(from);
    let mut l: u8 = from + 1;
    assert(segs@.push(GroundSegment { from: s, to: l, belt: cur }) =~= ground_segments(from, l as int));
    while l < to
        invariant
            from < 120,
            from < l <= to,
            segs@.push(GroundSegment { from: s, to: l, belt: cur }) == ground_segments(
                from,
                l as int,
            ),
        decreases to - l,
    {
        let ghost done = segs@;
        let ghost run = GroundSegment { from: s, to: l, belt: cur };
        let ghost all = ground_segments(from, l as int);
        let belt: bool = is_belt_layer(l);
        proof {
            assert(all == done.push(run));
            assert(all.last() == run);
            assert(all.drop_last() =~= done);
            assert(belt_layer(((l + 1) - 1) as u8) == belt);
        }
        if belt != cur {
            segs.push(GroundSegment { from: s, to: l, belt: cur });
            s = l;
            cur = belt;
        }
        l = l + 1;
    }
    segs.push(GroundSegment { from: s, to, belt: cur });
    segs
}

/// The runs follow one another from the start of the range to its end, each of
/// them is all belts or all something else, and neighbours differ.
pub proof fn lemma_ground_segments_cover(from: u8, l: int)
    requires
        from < l <= 255,
    ensures
        ({
            let s = ground_segments(from, l);
            &&& s.len() > 0
            &&& s[0].from == from
            &&& s.last().to == l
            &&& forall|i: int| 0 <= i < s.len() ==> (#[trigger] s[i]).from < s[i].to
            &&& forall|i: int, j: int|
                0 <= i && j == i + 1 && j < s.len() ==> (#[trigger] s[i]).to == (#[trigger] s[j]).from
                    && s[i].belt != s[j].belt
            &&& forall|i: int, k: u8|
                0 <= i < s.len() && (#[trigger] s[i]).from <= k < s[i].to ==> #[trigger] belt_layer(k) == s[i].belt
        }),
    decreases l - from,
{
    if l > from + 1 {
        lemma_ground_segments_cover(from, l - 1);
        let b = ground_segments(from, l - 1);
        let s = ground_segments(from, l);
        assert forall|i: int, j: int| 0 <= i && j == i + 1 && j < s.len() implies (#[trigger] s[i]).to
            == (#[trigger] s[j]).from && s[i].belt != s[j].belt by {
            assert(s[i] == b[i]);
            if j < b.len() {
                assert(b[i].to == b[j].from);
            }
        }
        assert forall|i: int, k: u8| 0 <= i < s.len() && (#[trigger] s[i]).from <= k < s[i].to implies #[trigger] belt_layer(k) == s[i].belt by {
            if i < b.len() {
                if k < b[i].to {
                    assert(b[i].from <= k < b[i].to);
                }
            }
        }
    }
}

/// A batch of draw commands: its address, the argument of its last flush, and
/// the frame in which it was last seen.
#[derive(Clone, Copy, PartialEq, Eq, Structural, Debug)]
pub struct BatchEntry {
    pub ptr: u64,
    pub arg: u8,
    pub seen: u64,
}

/// The most batches that are known.
pub const MAX_BATCHES: usize = 8;

/// The frames for which a batch counts as alive.
pub const BATCH_LIFE: u64 = 120;

/// Where the batch with an address stands.
pub open spec fn batch_at(s: Seq<BatchEntry>, ptr: u64) -> Option<int>
    decreases s.len(),
{
    if s.len() == 0 {
        None
    } else if batch_at(s.drop_last(), ptr) is Some {
        batch_at(s.drop_last(), ptr)
    } else if s.last().ptr == ptr {
        Some(s.len() - 1)
    } else {
        None
    }
}

/// The batches after one of them was flushed.
pub open spec fn seen_flush(s: Seq<BatchEntry>, e: BatchEntry) -> Seq<BatchEntry> {
    match batch_at(s, e.ptr) {
        Some(i) => s.update(i, e),
        None => if s.len() < MAX_BATCHES {
            s.push(e)
        } else {
            s
        },
    }
}

fn find_batch(reg: &Vec<BatchEntry>, ptr: u64) -> (r: Option<usize>)
    ensures
        r is Some <==> batch_at(reg@, ptr) is Some,
        r matches Some(i) ==> batch_at(reg@, ptr) == Some(i as int) && i < reg.len(),
{
    let mut i: usize = 0;
    while i < reg.len()
        invariant
            i <= reg.len(),
            batch_at(reg@.take(i as int), ptr) is None,
        decreases reg.len() - i,
    {
        assert(reg@.take(i + 1).drop_last() =~= reg@.take(i as int));
        if reg[i].ptr == ptr {
            proof {
                lemma_batch_prefix(reg@, i + 1, ptr);
            }
            return Some(i);
        }
        i = i + 1;
    }
    assert(reg@.take(i as int) =~= reg@);
    None
}

proof fn lemma_batch_prefix(s: Seq<BatchEntry>, n: int, ptr: u64)
    requires
        0 <= n <= s.len(),
        batch_at(s.take(n), ptr) is Some,
    ensures
        batch_at(s, ptr) == batch_at(s.take(n), ptr),
    decreases s.len(),
{
    if n == s.len() {
        assert(s.take(n) =~= s);
    } else {
        assert(s.drop_last().take(n) =~= s.take(n));
        lemma_batch_prefix(s.drop_last(), n, ptr);
    }
}

/// Takes note of a flush by the game.
pub fn hooked_dcb_flush(reg: &mut Vec<BatchEntry>, ptr: u64, arg: u8, frame: u64)
    ensures
        final(reg)@ == if ptr == 0 {
            old(reg)@
        } else {
            seen_flush(old(reg)@, BatchEntry { ptr, arg, seen: frame })
        },
{
    if ptr == 0 {
        return;
    }
    match find_batch(reg, ptr) {
        Some(i) => {
            reg.set(i, BatchEntry { ptr, arg, seen: frame });
        },
        None => {
            if reg.len() < MAX_BATCHES {
                reg.push(BatchEntry { ptr, arg, seen: frame });
            }
        },
    }
}

/// The batch was seen not too long ago.
pub open spec fn alive(e: BatchEntry, frame: u64) -> bool {
    frame <= e.seen || frame - e.seen <= BATCH_LIFE
}

/// The batches that are flushed at the edge of a window: those that were seen
/// not too long ago, since a level that was left takes its batches with it.
pub fn force_flush_batches(reg: &Vec<BatchEntry>, frame: u64) -> (r: Vec<BatchEntry>)
    ensures
        r@ == reg@.filter(|e: BatchEntry| alive(e, frame)),
{
    let mut r: Vec<BatchEntry> = Vec::new();
    let ghost keep = |e: BatchEntry| alive(e, frame);
    let mut i: usize = 0;
    proof {
        reveal(Seq::filter);
        assert(reg@.take(0) =~= Seq::<BatchEntry>::empty());
    }
    while i < reg.len()
        invariant
            i <= reg.len(),
            keep == (|e: BatchEntry| alive(e, frame)),
            r@ == reg@.take(i as int).filter(keep),
        decreases reg.len() - i,
    {
        proof {
            reveal(Seq::filter);
            assert(reg@.take(i + 1).drop_last() =~= reg@.take(i as int));
        }
        let e: BatchEntry = reg[i];
        if frame <= e.seen || frame - e.seen <= BATCH_LIFE {
            r.push(e);
        }
        i = i + 1;
    }
    assert(reg@.take(i as int) =~= reg@);
    r
}

/// Forgets all batches, when a level is loaded.
pub fn clear_batch_registry(reg: &mut Vec<BatchEntry>)
    ensures
        final(reg)@.len() == 0,
{
    reg.clear();
}

/// While layers are captured, belts and rails go to layer 155, items on belts to the one
/// above, and what stands low to the objects. Any other sprite stays where it is, and
/// without capturing every one does.
pub proof fn lemma_layers_of_sprites(enabled: bool, layer: u8, r: u8)
    requires
        call_ensures(retag, (enabled, layer), r),
    ensures
        ({
            let belt = layer == 68 || layer == 76 || layer == 84 || layer == 96 || layer == 97 || layer == 100
                || layer == 104 || layer == 105 || layer == 117;
            let low = layer == 118 || layer == 119;
            &&& !enabled ==> r == layer
            &&& enabled && belt ==> r == 155
            &&& enabled && layer == 109 ==> r == 156
            &&& enabled && low ==> r == 121
            &&& enabled && !belt && !low && layer != 109 ==> r == layer
        }),
{
}

/// Of the ground the layers of belts and rails are captured: those that are moved, and
/// the one below them.
pub proof fn lemma_belts_of_the_ground(layer: u8, r: bool)
    requires
        call_ensures(is_belt_layer, (layer,), r),
    ensures
        r <==> layer == 65 || layer_for(layer) == 155 && layer != 155 || layer_for(layer) == 156 && layer != 156,
{
}

/// A sprite is turned with the camera where it has an orientation that is a number, the
/// view is turned by more than a degree, and it stands up or is a part of what moves.
pub proof fn lemma_which_sprites_turn(c: &DrawContext, present: bool, finite: bool, layer: u8, enabled: bool, yaw: i32, r: bool)
    requires
        call_ensures(rotated_arg_for, (c, present, finite, layer, enabled, yaw), r),
    ensures
        r <==> present && finite && enabled && !(-10 <= yaw <= 10) && (118 <= layer <= 132 || c.in_character
            || c.entity_depth != 0),
{
}

/// A sprite is recorded where it is of an object but no wire, or of what moves, in the
/// main view while it is turned, and is no shadow and no light.
pub proof fn lemma_which_sprites_are_recorded(c: &DrawContext, enabled: bool, flags: Option<u16>, main_view: bool, t: &SizeTests, r: bool, k: bool)
    requires
        call_ensures(is_recordable, (c, enabled, flags, main_view), r),
        call_ensures(keeps_part, (c, t), k),
    ensures
        ({
            let moving = c.in_character || c.entity_depth != 0;
            &&& r <==> enabled && main_view && (moving || (120 <= c.layer <= 132 && c.layer != 131)) && (flags
                matches Some(f) ==> f & 6 == 0)
            &&& !moving ==> (k <==> t.consistent && t.sensible && t.visible && t.tint != 0)
            &&& c.in_character ==> (k <==> t.consistent && t.sensible && t.visible && t.tint != 0
                && t.below_half_view && t.taller_than_player_shadow)
            &&& !c.in_character && moving ==> (k <==> t.consistent && t.sensible && t.visible && t.tint != 0
                && t.below_half_view && t.taller_than_vehicle_shadow)
        }),
{
}

/// What is recorded of a sprite: its place and size as they are, the position that it
/// stands on, or else that on the screen, what is being drawn, and the view that it was
/// placed under. Only what moves is special and has the serial number of its entity.
pub proof fn lemma_recorded_rectangle(c: DrawContext, p: Placed)
    requires
        p.spans_fit(),
    ensures
        ({
            let r = rect_of(c, p);
            let moving = c.in_character || c.entity_depth != 0;
            &&& r.cx == p.cx && r.cy == p.cy && r.hw == p.hw && r.hh == p.hh
            &&& p.pos matches Some(q) ==> r.kx == q.x && r.ky == q.y
            &&& p.pos is None ==> r.kx == p.screen.x && r.ky == p.screen.y
            &&& r.player == c.in_character && r.unit == (c.unit_depth != 0) && r.flat == c.in_flat && r.fly
                == c.in_fly && r.elevated_flat == c.flat_elevated
            &&& r.special == moving
            &&& moving ==> r.grp == c.serial
            &&& !moving ==> r.grp == 0
            &&& p.right > p.left + 25 && p.bottom > p.top + 25 ==> r.stamp.left == p.left && r.stamp.top == p.top
                && r.stamp.left + r.stamp.span_x == p.right && r.stamp.top + r.stamp.span_y == p.bottom
            &&& !(p.right > p.left + 25 && p.bottom > p.top + 25) ==> r.stamp.span_x == 0 && r.stamp.span_y == 0
        }),
{
}

/// Which ranges of layers are captured, and as what: only while the world is drawn and
/// the view is turned, and only ranges that lie within the layers of their kind.
pub proof fn lemma_captured_ranges(enabled: bool, world: bool, from: u8, to: u8, r: RangeUse)
    requires
        call_ensures(hooked_draw_entities, (enabled, world, from, to), r),
    ensures
        r == RangeUse::Capture(CaptureKind::Object) <==> enabled && world && 120 <= from <= 132 && to <= 133,
        r == RangeUse::Capture(CaptureKind::Elevated) <==> enabled && world && 133 <= from <= 152 && to <= 153,
        r == RangeUse::Capture(CaptureKind::Belt) <==> enabled && world && 155 <= from <= 158 && to <= 159,
        r == RangeUse::Ground <==> enabled && world && from < 120,
        r != RangeUse::Capture(CaptureKind::Wire),
{
}

/// A range that crosses the layer of wires has it captured apart, and the rest of it as
/// objects; no other range is split.
pub proof fn lemma_wires_apart(from: u8, to: u8, kind: CaptureKind, r: Vec<Segment>, i: int)
    requires
        from < to,
        kind != CaptureKind::Wire,
        call_ensures(divert_object_range, (from, to, kind), r),
        0 <= i < r@.len(),
    ensures
        ({
            let crosses = kind == CaptureKind::Object && from <= 131 < to;
            &&& !crosses ==> r@ == seq![Segment { from, to, kind }]
            &&& crosses && r@[i].from == 131 ==> r@[i] == (Segment { from: 131, to: 132, kind: CaptureKind::Wire })
            &&& crosses && r@[i].from != 131 ==> r@[i].kind == CaptureKind::Object
            &&& crosses ==> exists|k: int| 0 <= k < r@.len() && (#[trigger] r@[k]).kind == CaptureKind::Wire
        }),
{
    if kind == CaptureKind::Object && from <= 131 < to {
        if from < 131 {
            assert(r@[1].kind == CaptureKind::Wire);
        } else {
            assert(r@[0].kind == CaptureKind::Wire);
        }
    }
}

proof fn lemma_batch_found(s: Seq<BatchEntry>, ptr: u64)
    ensures
        batch_at(s, ptr) matches Some(i) ==> 0 <= i < s.len() && s[i].ptr == ptr,
        batch_at(s, ptr) is None ==> forall|i: int| 0 <= i < s.len() ==> (#[trigger] s[i]).ptr != ptr,
    decreases s.len(),
{
    if s.len() > 0 {
        lemma_batch_found(s.drop_last(), ptr);
        assert forall|i: int| 0 <= i < s.len() && batch_at(s, ptr) is None implies (#[trigger] s[i]).ptr != ptr by {
            if i < s.len() - 1 {
                assert(s.drop_last()[i] == s[i]);
            }
        }
    }
}

/// A batch that is flushed is known with what it was last flushed with; a new one as
/// long as there is room for eight, and the others as they were.
pub proof fn lemma_known_batches(s: Seq<BatchEntry>, e: BatchEntry, i: int)
    ensures
        ({
            let r = seen_flush(s, e);
            let known = exists|k: int| 0 <= k < s.len() && (#[trigger] s[k]).ptr == e.ptr;
            &&& known ==> r.len() == s.len() && r.contains(e)
            &&& !known && s.len() < 8 ==> r == s.push(e)
            &&& !known && s.len() >= 8 ==> r == s
            &&& 0 <= i < s.len() && s[i].ptr != e.ptr ==> r[i] == s[i]
        }),
{
    lemma_batch_found(s, e.ptr);
    match batch_at(s, e.ptr) {
        Some(k) => {
            assert(seen_flush(s, e)[k] == e);
        },
        None => {},
    }
}

/// The batches that were seen in the last 120 frames are flushed, and no others.
pub proof fn lemma_flushed_batches(reg: &Vec<BatchEntry>, frame: u64, r: Vec<BatchEntry>, e: BatchEntry)
    requires
        call_ensures(force_flush_batches, (reg, frame), r),
    ensures
        r@.contains(e) <==> reg@.contains(e) && frame <= e.seen + 120,
{
    crate::text::lemma_filtered(reg@, |e: BatchEntry| alive(e, frame), e);
}

} // verus!
