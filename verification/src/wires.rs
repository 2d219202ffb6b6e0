//! The wires between poles: which spans are drawn, and in which colour.

use crate::grid::{cell_at, cell_of, has_room, Cell, CellSet};
use crate::hooks::MapPos;
use crate::mem::{follow, found_views, pointed, readable, scan_proto_strings, strings_in, Memory};
use crate::text::{contains, has_text, lowercase, to_lowercase};
use crate::util::memo;
use std::collections::HashMap;
use vstd::prelude::*;

verus! {

broadcast use vstd::std_specs::hash::group_hash_axioms;

/// A colour, as the bits of 32-bit floats.
#[derive(Clone, Copy, PartialEq, Eq, Structural, Debug)]
pub struct Color {
    pub r: u32,
    pub g: u32,
    pub b: u32,
    pub a: u32,
}

/// The bits of 1 as a 32-bit float.
pub const ONE: u32 = 0x3F80_0000;

/// The colour of copper, in hundredths 72, 45 and 28.
pub open spec fn copper() -> Color {
    Color { r: 0x3F38_51EC, g: 0x3EE6_6666, b: 0x3E8F_5C29, a: 0x3F80_0000 }
}

/// The colour of green wires, in hundredths 25, 75 and 28.
pub open spec fn green() -> Color {
    Color { r: 0x3E80_0000, g: 0x3F40_0000, b: 0x3E8F_5C29, a: 0x3F80_0000 }
}

/// The colour of red wires, in hundredths 85, 25 and 22.
pub open spec fn red() -> Color {
    Color { r: 0x3F59_999A, g: 0x3E80_0000, b: 0x3E61_47AE, a: 0x3F80_0000 }
}

/// The colour that a name in lower case stands for.
pub open spec fn color_named(s: Seq<char>) -> Option<Color> {
    if has_text(s, "copper-wire"@) {
        Some(copper())
    } else if has_text(s, "green-wire"@) {
        Some(green())
    } else if has_text(s, "red-wire"@) {
        Some(red())
    } else {
        None
    }
}

/// The colour that a name in lower case stands for.
pub fn wire_color_in(lower: &str) -> (r: Option<Color>)
    ensures
        r == color_named(lower@),
{
    if contains(lower, "copper-wire") {
        Some(Color { r: 0x3F38_51EC, g: 0x3EE6_6666, b: 0x3E8F_5C29, a: ONE })
    } else if contains(lower, "green-wire") {
        Some(Color { r: 0x3E80_0000, g: 0x3F40_0000, b: 0x3E8F_5C29, a: ONE })
    } else if contains(lower, "red-wire") {
        Some(Color { r: 0x3F59_999A, g: 0x3E80_0000, b: 0x3E61_47AE, a: ONE })
    } else {
        None
    }
}

/// The colour of the first name that stands for one.
pub open spec fn first_color(s: Seq<(u64, Seq<char>)>) -> Option<Color>
    decreases s.len(),
{
    if s.len() == 0 {
        None
    } else if color_named(lowercase(s[0].1)) is Some {
        color_named(lowercase(s[0].1))
    } else {
        first_color(s.drop_first())
    }
}

/// The colour of the first name that stands for one. A sprite lists its own
/// name before those of others.
pub fn wire_color_from(strings: &Vec<(u64, String)>) -> (r: Option<Color>)
    ensures
        r == first_color(found_views(strings@)),
{
    let ghost all = found_views(strings@);
    let mut i: usize = 0;
    assert(all.skip(0) =~= all);
    while i < strings.len()
        invariant
            i <= strings.len(),
            all == found_views(strings@),
            first_color(all) == first_color(all.skip(i as int)),
        decreases strings.len() - i,
    {
        let lower: String = to_lowercase(strings[i].1.as_str());
        assert(all.skip(i as int)[0].1 == strings@[i as int].1@);
        assert(all.skip(i as int).drop_first() =~= all.skip(i + 1));
        match wire_color_in(lower.as_str()) {
            Some(c) => {
                return Some(c);
            },
            None => {},
        }
        i = i + 1;
    }
    None
}

/// The strings of a sprite and of what its first `n` words point to.
pub open spec fn strings_around(mem: Memory, sprite: int, n: int) -> Seq<(u64, Seq<char>)>
    decreases n,
{
    if n <= 0 {
        strings_in(mem, sprite, 192)
    } else {
        strings_around(mem, sprite, n - 1) + match pointed(mem, sprite, sprite + 8 * (n - 1)) {
            Some(sub) => strings_in(mem, sub, 192),
            None => Seq::empty(),
        }
    }
}

/// The strings of a sprite and of what it points to.
pub open spec fn sprite_strings(mem: Memory, sprite: int) -> Seq<(u64, Seq<char>)> {
    if mem.can_read(sprite, 0x80) {
        strings_around(mem, sprite, 16)
    } else {
        Seq::empty()
    }
}

/// The strings of a sprite and of what it points to: its name may stand behind
/// a pointer.
pub fn wire_sprite_strings(mem: &Memory, sprite: u64) -> (r: Vec<(u64, String)>)
    requires
        mem.wf(),
    ensures
        found_views(r@) == sprite_strings(*mem, sprite as int),
{
    let mut out: Vec<(u64, String)> = Vec::new();
    if sprite == 0 || !readable(mem, sprite, 0x80) {
        assert(found_views(out@) =~= Seq::<(u64, Seq<char>)>::empty());
        return out;
    }
    let mut direct: Vec<(u64, String)> = scan_proto_strings(mem, sprite);
    out.append(&mut direct);
    assert(found_views(out@) =~= strings_around(*mem, sprite as int, 0));
    let mut n: u64 = 0;
    while n < 16
        invariant
            mem.wf(),
            n <= 16,
            found_views(out@) == strings_around(*mem, sprite as int, n as int),
        decreases 16 - n,
    {
        let ghost before = out@;
        match follow(mem, sprite, n * 8) {
            Some(sub) => {
                let mut more: Vec<(u64, String)> = scan_proto_strings(mem, sub);
                let ghost m = more@;
                out.append(&mut more);
                assert(found_views(out@) =~= found_views(before) + found_views(m));
            },
            None => {
                assert(found_views(out@) =~= found_views(before) + Seq::<(u64, Seq<char>)>::empty());
            },
        }
        n = n + 1;
    }
    out
}

/// The colour of a sprite: by its own names, else by those around it, else that
/// of copper.
pub open spec fn color_of(mem: Memory, sprite: int) -> Color {
    match first_color(strings_in(mem, sprite, 192)) {
        Some(c) => c,
        None => match first_color(sprite_strings(mem, sprite)) {
            Some(c) => c,
            None => copper(),
        },
    }
}

fn sprite_color(mem: &Memory, sprite: u64) -> (r: Color)
    requires
        mem.wf(),
    ensures
        r == color_of(*mem, sprite as int),
{
    let direct: Vec<(u64, String)> = scan_proto_strings(mem, sprite);
    match wire_color_from(&direct) {
        Some(c) => {
            return c;
        },
        None => {},
    }
    let around: Vec<(u64, String)> = wire_sprite_strings(mem, sprite);
    match wire_color_from(&around) {
        Some(c) => c,
        None => Color { r: 0x3F38_51EC, g: 0x3EE6_6666, b: 0x3E8F_5C29, a: ONE },
    }
}

/// The colour of a sprite, which is worked out once.
pub fn wire_color(cache: &mut HashMap<u64, Color>, mem: &Memory, sprite: u64) -> (r: Color)
    requires
        mem.wf(),
    ensures
        r == if old(cache)@.contains_key(sprite) {
            old(cache)@[sprite]
        } else {
            color_of(*mem, sprite as int)
        },
        final(cache)@ == old(cache)@.insert(sprite, r),
{
    let ghost color = color_of(*mem, sprite as int);
    let compute = || -> (c: Color)
        requires
            mem.wf(),
        ensures
            c == color,
        { sprite_color(mem, sprite) };
    let r = memo(cache, sprite, compute);
    assert(cache@ =~= old(cache)@.insert(sprite, r));
    r
}

/// The bits of 1.001 as a 32-bit float.
pub const TINT_MAX: u32 = 0x3F80_20C5;

/// The bits of 0.93 as a 32-bit float.
pub const NEAR_WHITE: u32 = 0x3F6E_147B;

/// The bits of -0 as a 32-bit float.
pub const MINUS_ZERO: u32 = 0x8000_0000;

/// The bits of a number from 0 to 1.001.
pub open spec fn tint_part(c: u32) -> bool {
    c <= 0x3F80_20C5 || c == 0x8000_0000
}

/// The bits of a number from 0 up to 0.93.
pub open spec fn below_white(c: u32) -> bool {
    c < 0x3F6E_147B || c == 0x8000_0000
}

/// The colour says which wire it is: one that is near white says nothing.
pub open spec fn is_tint(c: Color) -> bool {
    &&& tint_part(c.r) && tint_part(c.g) && tint_part(c.b) && tint_part(c.a)
    &&& below_white(c.r) || below_white(c.g) || below_white(c.b)
}

fn tint_part_ok(c: u32) -> (r: bool)
    ensures
        r == tint_part(c),
{
    c <= TINT_MAX || c == MINUS_ZERO
}

fn below(c: u32) -> (r: bool)
    ensures
        r == below_white(c),
{
    c < NEAR_WHITE || c == MINUS_ZERO
}

/// The colour of a span that its tint says, where it says one.
pub fn tint_of(c: Option<Color>) -> (r: Option<Color>)
    ensures
        r == match c {
            Some(t) => if is_tint(t) {
                Some(t)
            } else {
                None
            },
            None => None,
        },
{
    match c {
        Some(t) => {
            let proper: bool = tint_part_ok(t.r) && tint_part_ok(t.g) && tint_part_ok(t.b)
                && tint_part_ok(t.a);
            if proper && (below(t.r) || below(t.g) || below(t.b)) {
                Some(t)
            } else {
                None
            }
        },
        None => None,
    }
}

/// What becomes of a span that the game draws.
#[derive(Clone, Copy, PartialEq, Eq, Structural, Debug)]
pub enum SpanUse {
    /// The game draws it.
    Plain,
    /// It is a shadow, and nobody draws it.
    Dropped,
    /// It is recorded in place of being drawn.
    Recorded,
}

/// What becomes of a span that the game draws.
pub fn hooked_wire_seg(ghost: bool, from: u64, to: u64, shadow: u8) -> (r: SpanUse)
    ensures
        r == if ghost || from == 0 || to == 0 {
            SpanUse::Plain
        } else if shadow != 0 {
            SpanUse::Dropped
        } else {
            SpanUse::Recorded
        },
{
    if ghost || from == 0 || to == 0 {
        SpanUse::Plain
    } else if shadow != 0 {
        SpanUse::Dropped
    } else {
        SpanUse::Recorded
    }
}

/// A span of wire.
#[derive(Clone, Copy, PartialEq, Eq, Structural, Debug)]
pub struct WireDraw {
    pub from: MapPos,
    pub to: MapPos,
    /// Its height, as the bits of a 32-bit float.
    pub height: u32,
    pub color: Color,
    /// The last frame in which it was drawn.
    pub seen: u64,
}

/// The most spans.
pub const MAX_WIRES: usize = 4096;

/// What tells spans apart: their ends, to a sixteenth of a tile, and their
/// colour.
#[derive(Clone, Copy, PartialEq, Eq, Structural, Debug)]
pub struct WireKey {
    pub x1: i32,
    pub y1: i32,
    pub x2: i32,
    pub y2: i32,
    pub hue: u32,
}

/// A coordinate in sixteenths of a tile, to the nearest; halves go away from 0.
pub open spec fn sixteenths(v: int) -> int {
    if v >= 0 {
        (v + 8) / 16
    } else {
        -((8 - v) / 16)
    }
}

pub open spec fn key_of(w: WireDraw) -> WireKey {
    WireKey {
        x1: sixteenths(w.from.x as int) as i32,
        y1: sixteenths(w.from.y as int) as i32,
        x2: sixteenths(w.to.x as int) as i32,
        y2: sixteenths(w.to.y as int) as i32,
        hue: w.color.r ^ ((w.color.g << 8) | (w.color.g >> 24)),
    }
}

fn to_sixteenths(v: i32) -> (r: i32)
    ensures
        r == sixteenths(v as int),
{
    let w: i64 = v as i64;
    if w >= 0 {
        ((w + 8) / 16) as i32
    } else {
        (-((8 - w) / 16)) as i32
    }
}

fn wire_key(w: &WireDraw) -> (r: WireKey)
    ensures
        r == key_of(*w),
{
    WireKey {
        x1: to_sixteenths(w.from.x),
        y1: to_sixteenths(w.from.y),
        x2: to_sixteenths(w.to.x),
        y2: to_sixteenths(w.to.y),
        hue: w.color.r ^ ((w.color.g << 8) | (w.color.g >> 24)),
    }
}

/// No two spans have the same key, and there are not too many.
pub open spec fn spans_ok(s: Seq<WireDraw>) -> bool {
    &&& s.len() <= MAX_WIRES
    &&& forall|i: int, j: int|
        0 <= i < s.len() && 0 <= j < s.len() && i != j ==> key_of(#[trigger] s[i]) != key_of(
            #[trigger] s[j],
        )
}

/// There is a span with a key at a place.
pub open spec fn span_at(s: Seq<WireDraw>, k: WireKey, i: int) -> bool {
    0 <= i < s.len() && key_of(s[i]) == k
}

fn find_span(v: &Vec<WireDraw>, k: WireKey) -> (r: Option<usize>)
    ensures
        r matches Some(i) ==> span_at(v@, k, i as int),
        r is None ==> forall|i: int| !span_at(v@, k, i),
{
    let mut i: usize = 0;
    while i < v.len()
        invariant
            i <= v.len(),
            forall|j: int| 0 <= j < i ==> key_of(#[trigger] v@[j]) != k,
        decreases v.len() - i,
    {
        if wire_key(&v[i]) == k {
            return Some(i);
        }
        i = i + 1;
    }
    None
}

/// Takes note of a span. It replaces the one with the same key, where there is
/// one; a new one is kept as long as there is room.
pub fn record_wire(wires: &mut Vec<WireDraw>, w: WireDraw, frame: u64)
    requires
        spans_ok(old(wires)@),
    ensures
        spans_ok(final(wires)@),
        ({
            let s = old(wires)@;
            let n = WireDraw { seen: frame, ..w };
            &&& forall|i: int| #[trigger] span_at(s, key_of(w), i) ==> final(wires)@ == s.update(i, n)
            &&& (forall|i: int| !span_at(s, key_of(w), i)) ==> final(wires)@ == if s.len()
                < MAX_WIRES {
                s.push(n)
            } else {
                s
            }
        }),
{
    let n: WireDraw = WireDraw { seen: frame, ..w };
    assert(key_of(n) == key_of(w));
    match find_span(wires, wire_key(&w)) {
        Some(i) => {
            wires.set(i, n);
        },
        None => {
            if wires.len() < MAX_WIRES {
                proof {
                    assert forall|j: int| 0 <= j < wires@.len() implies key_of(#[trigger] wires@[j]) != key_of(n) by {
                        assert(!span_at(wires@, key_of(w), j));
                    }
                }
                wires.push(n);
            }
        },
    }
}

/// A position lies less than a tile from another.
pub open spec fn near(p: MapPos, q: MapPos) -> bool {
    (p.x - q.x) * (p.x - q.x) + (p.y - q.y) * (p.y - q.y) < 0x1_0000
}

fn is_near(p: MapPos, q: MapPos) -> (r: bool)
    ensures
        r == near(p, q),
{
    let dx: i64 = p.x as i64 - q.x as i64;
    let dy: i64 = p.y as i64 - q.y as i64;
    assert(dx * dx >= 0) by (nonlinear_arith);
    assert(dy * dy >= 0) by (nonlinear_arith);
    if dx >= 256 || dx <= -256 {
        assert(dx * dx >= 0x1_0000) by (nonlinear_arith)
            requires
                dx >= 256 || dx <= -256,
        ;
        return false;
    }
    if dy >= 256 || dy <= -256 {
        assert(dy * dy >= 0x1_0000) by (nonlinear_arith)
            requires
                dy >= 256 || dy <= -256,
        ;
        return false;
    }
    assert(dx * dx <= 0x1_0000) by (nonlinear_arith)
        requires
            -256 < dx < 256,
    ;
    assert(dy * dy <= 0x1_0000) by (nonlinear_arith)
        requires
            -256 < dy < 256,
    ;
    dx * dx + dy * dy < 0x1_0000
}

/// An end of a span lies near a position.
pub open spec fn touches(w: WireDraw, p: MapPos) -> bool {
    near(w.from, p) || near(w.to, p)
}

proof fn lemma_filter_keeps(s: Seq<WireDraw>, f: spec_fn(WireDraw) -> bool)
    requires
        spans_ok(s),
    ensures
        spans_ok(s.filter(f)),
        forall|i: int| 0 <= i < s.filter(f).len() ==> s.contains(#[trigger] s.filter(f)[i]),
    decreases s.len(),
{
    reveal(Seq::filter);
    if s.len() > 0 {
        let t = s.drop_last();
        lemma_filter_keeps(t, f);
        let r = s.filter(f);
        let q = t.filter(f);
        assert forall|i: int| 0 <= i < r.len() implies s.contains(#[trigger] r[i]) by {
            if i < q.len() {
                assert(t.contains(q[i]));
                let n = t.index_of(q[i]);
                assert(s[n] == q[i]);
            } else {
                assert(s[s.len() - 1] == r[i]);
            }
        }
        assert forall|i: int, j: int| 0 <= i < r.len() && 0 <= j < r.len() && i != j implies key_of(#[trigger] r[i]) != key_of(#[trigger] r[j]) by {
            if i < q.len() && j < q.len() {
                assert(q[i] == r[i] && q[j] == r[j]);
            } else {
                let (m, o) = if i < j { (i, j) } else { (j, i) };
                assert(t.contains(q[m]));
                let n = t.index_of(q[m]);
                assert(s[n] == q[m]);
                assert(r[o] == s[s.len() - 1]);
            }
        }
    }
}

/// Gives up the spans with an end near a position: before a pole draws its wires
/// anew, and when an entity is gone.
pub fn clear_wires_near(wires: &mut Vec<WireDraw>, p: MapPos)
    requires
        spans_ok(old(wires)@),
    ensures
        spans_ok(final(wires)@),
        final(wires)@ == old(wires)@.filter(|w: WireDraw| !touches(w, p)),
{
    let ghost s = wires@;
    let ghost keep = |w: WireDraw| !touches(w, p);
    let mut kept: Vec<WireDraw> = Vec::new();
    let mut i: usize = 0;
    proof {
        reveal(Seq::filter);
        assert(s.take(0) =~= Seq::<WireDraw>::empty());
    }
    while i < wires.len()
        invariant
            i <= wires.len(),
            wires@ == s,
            keep == (|w: WireDraw| !touches(w, p)),
            kept@ == s.take(i as int).filter(keep),
        decreases wires.len() - i,
    {
        proof {
            reveal(Seq::filter);
            assert(s.take(i + 1).drop_last() =~= s.take(i as int));
        }
        let w: WireDraw = wires[i];
        if !is_near(w.from, p) && !is_near(w.to, p) {
            kept.push(w);
        }
        i = i + 1;
    }
    proof {
        assert(s.take(i as int) =~= s);
        lemma_filter_keeps(s, keep);
    }
    *wires = kept;
}

/// After that, no span has an end near the position.
pub proof fn lemma_none_near(s: Seq<WireDraw>, p: MapPos, i: int)
    requires
        0 <= i < s.filter(|w: WireDraw| !touches(w, p)).len(),
    ensures
        !touches(s.filter(|w: WireDraw| !touches(w, p))[i], p),
{
    let f = |w: WireDraw| !touches(w, p);
    s.lemma_filter_pred(f, i);
}

/// One of the nine tiles around a tile is in a set.
pub open spec fn around(cells: Set<Cell>, c: Cell) -> bool {
    exists|dx: int, dy: int|
        -1 <= dx <= 1 && -1 <= dy <= 1 && #[trigger] cells.contains(shifted(c, dx, dy))
}

/// The tile that is moved by some tiles.
pub open spec fn shifted(c: Cell, dx: int, dy: int) -> Cell {
    Cell { x: (c.x + dx) as i32, y: (c.y + dy) as i32 }
}

fn is_around(cells: &CellSet, c: Cell) -> (r: bool)
    requires
        has_room(c, 1),
    ensures
        r == around(cells@, c),
{
    let mut dx: i32 = -1;
    while dx <= 1
        invariant
            -1 <= dx <= 2,
            has_room(c, 1),
            forall|x: int, y: int|
                -1 <= x < dx && -1 <= y <= 1 ==> !#[trigger] cells@.contains(shifted(c, x, y)),
        decreases 2 - dx,
    {
        let mut dy: i32 = -1;
        while dy <= 1
            invariant
                -1 <= dy <= 2,
                -1 <= dx <= 1,
                has_room(c, 1),
                forall|x: int, y: int|
                    -1 <= x < dx && -1 <= y <= 1 ==> !#[trigger] cells@.contains(shifted(c, x, y)),
                forall|y: int| -1 <= y < dy ==> !#[trigger] cells@.contains(shifted(c, dx as int, y)),
            decreases 2 - dy,
        {
            let d: Cell = Cell { x: c.x + dx, y: c.y + dy };
            assert(d == shifted(c, dx as int, dy as int));
            if cells.contains(d) {
                return true;
            }
            dy = dy + 1;
        }
        dx = dx + 1;
    }
    false
}

/// Whether a pole stands on one of the nine tiles around a position: a wire that
/// ends there hangs higher.
pub fn near_pole(poles: &CellSet, p: MapPos) -> (r: bool)
    ensures
        r == around(poles@, cell_of(p)),
{
    is_around(poles, cell_at(p))
}

/// A span stays: where both its ends are at entities, or it was drawn not too
/// long ago.
pub open spec fn stays(w: WireDraw, cells: Set<Cell>, frame: u64, window: u64) -> bool {
    ||| around(cells, cell_of(w.from)) && around(cells, cell_of(w.to))
    ||| frame < w.seen + window
}

/// Gives up the spans that hang in the open and were not drawn for a while: they
/// are left of a wire that was dragged along.
pub fn expire_wires(wires: &mut Vec<WireDraw>, cells: &CellSet, frame: u64, window: u64)
    requires
        spans_ok(old(wires)@),
        window > 0,
    ensures
        spans_ok(final(wires)@),
        final(wires)@ == old(wires)@.filter(|w: WireDraw| stays(w, cells@, frame, window)),
{
    let ghost s = wires@;
    let ghost keep = |w: WireDraw| stays(w, cells@, frame, window);
    let mut kept: Vec<WireDraw> = Vec::new();
    let mut i: usize = 0;
    proof {
        reveal(Seq::filter);
        assert(s.take(0) =~= Seq::<WireDraw>::empty());
    }
    while i < wires.len()
        invariant
            i <= wires.len(),
            wires@ == s,
            window > 0,
            keep == (|w: WireDraw| stays(w, cells@, frame, window)),
            kept@ == s.take(i as int).filter(keep),
        decreases wires.len() - i,
    {
        proof {
            reveal(Seq::filter);
            assert(s.take(i + 1).drop_last() =~= s.take(i as int));
        }
        let w: WireDraw = wires[i];
        let anchored: bool = is_around(cells, cell_at(w.from)) && is_around(cells, cell_at(w.to));
        if anchored || frame < w.seen || frame - w.seen < window {
            kept.push(w);
        }
        i = i + 1;
    }
    proof {
        assert(s.take(i as int) =~= s);
        lemma_filter_keeps(s, keep);
    }
    *wires = kept;
}

/// A wire between entities stays, however long ago it was drawn; one that was
/// drawn in this frame stays in any case.
pub proof fn lemma_real_wires_stay(w: WireDraw, cells: Set<Cell>, frame: u64, window: u64)
    requires
        window > 0,
    ensures
        around(cells, cell_of(w.from)) && around(cells, cell_of(w.to)) ==> stays(
            w,
            cells,
            frame,
            window,
        ),
        w.seen == frame ==> stays(w, cells, frame, window),
{
}

/// The colour of a wire is that of the first of these that its name holds: copper,
/// green or red. Any other name says nothing.
pub proof fn lemma_colors_by_name(lower: &str, r: Option<Color>)
    requires
        call_ensures(wire_color_in, (lower,), r),
    ensures
        ({
            let c = has_text(lower@, "copper-wire"@);
            let g = has_text(lower@, "green-wire"@);
            let d = has_text(lower@, "red-wire"@);
            &&& r is Some <==> c || g || d
            &&& c ==> r == Some(Color { r: 0x3F38_51EC, g: 0x3EE6_6666, b: 0x3E8F_5C29, a: 0x3F80_0000 })
            &&& !c && g ==> r == Some(Color { r: 0x3E80_0000, g: 0x3F40_0000, b: 0x3E8F_5C29, a: 0x3F80_0000 })
            &&& !c && !g && d ==> r == Some(
                Color { r: 0x3F59_999A, g: 0x3E80_0000, b: 0x3E61_47AE, a: 0x3F80_0000 },
            )
        }),
{
}

proof fn lemma_first_color(s: Seq<(u64, Seq<char>)>)
    ensures
        first_color(s) is None ==> forall|i: int|
            0 <= i < s.len() ==> color_named(lowercase((#[trigger] s[i]).1)) is None,
        first_color(s) is Some ==> exists|i: int|
            0 <= i < s.len() && first_color(s) == color_named(lowercase((#[trigger] s[i]).1)) && forall|j: int|
                0 <= j < i ==> color_named(lowercase((#[trigger] s[j]).1)) is None,
    decreases s.len(),
{
    if s.len() > 0 {
        if color_named(lowercase(s[0].1)) is Some {
            assert(first_color(s) == color_named(lowercase(s[0].1)));
        } else {
            let d = s.drop_first();
            lemma_first_color(d);
            if first_color(d) is Some {
                let i = choose|i: int|
                    0 <= i < d.len() && first_color(d) == color_named(lowercase((#[trigger] d[i]).1)) && forall|j: int|
                        0 <= j < i ==> color_named(lowercase((#[trigger] d[j]).1)) is None;
                assert(s[i + 1] == d[i]);
                assert forall|j: int| 0 <= j < i + 1 implies color_named(lowercase((#[trigger] s[j]).1)) is None by {
                    if j > 0 {
                        assert(s[j] == d[j - 1]);
                    }
                }
            } else {
                assert forall|j: int| 0 <= j < s.len() implies color_named(lowercase((#[trigger] s[j]).1)) is None by {
                    if j > 0 {
                        assert(s[j] == d[j - 1]);
                    }
                }
            }
        }
    }
}

/// The first name that stands for a colour decides it, whatever the case of its
/// letters.
pub proof fn lemma_first_name_decides(strings: &Vec<(u64, String)>, r: Option<Color>)
    requires
        call_ensures(wire_color_from, (strings,), r),
    ensures
        ({
            let s = found_views(strings@);
            &&& r is None ==> forall|i: int|
                0 <= i < s.len() ==> color_named(lowercase((#[trigger] s[i]).1)) is None
            &&& r is Some ==> exists|i: int|
                0 <= i < s.len() && r == color_named(lowercase((#[trigger] s[i]).1)) && forall|j: int|
                    0 <= j < i ==> color_named(lowercase((#[trigger] s[j]).1)) is None
        }),
{
    lemma_first_color(found_views(strings@));
}

/// A span is a tint's where each part of it is from 0 to 1.001 and one at least of its
/// colours is below 0.93.
pub proof fn lemma_tints(c: Option<Color>, r: Option<Color>)
    requires
        call_ensures(tint_of, (c,), r),
    ensures
        ({
            let part = |b: u32| b <= 0x3F80_20C5 || b == 0x8000_0000;
            let dull = |b: u32| b < 0x3F6E_147B || b == 0x8000_0000;
            &&& r is Some ==> r == c
            &&& r is Some <==> (c matches Some(t) && part(t.r) && part(t.g) && part(t.b) && part(t.a) && (dull(t.r)
                || dull(t.g) || dull(t.b)))
        }),
{
}

/// Ends of spans are told apart to the nearest sixteenth of a tile.
pub proof fn lemma_nearest_sixteenth(v: int)
    ensures
        -8 <= 16 * sixteenths(v) - v <= 8,
        sixteenths(-v) == -sixteenths(v),
        v > 0 && v % 16 == 8 ==> 16 * sixteenths(v) == v + 8,
{
}

/// Spans with the same ends and colour are the same, and those whose ends are more
/// than a sixteenth of a tile apart are not.
pub proof fn lemma_same_spans(a: WireDraw, b: WireDraw)
    ensures
        a.from == b.from && a.to == b.to && a.color == b.color ==> key_of(a) == key_of(b),
        a.from.x - b.from.x > 16 || a.from.y - b.from.y > 16 || a.to.x - b.to.x > 16 || a.to.y - b.to.y > 16
            ==> key_of(a) != key_of(b),
{
}

/// An entity that is gone, or a pole that draws its wires anew, takes with it every
/// span that ends less than a tile away, and no other.
pub proof fn lemma_spans_taken(s: Seq<WireDraw>, p: MapPos, w: WireDraw)
    ensures
        ({
            let close = |q: MapPos| (q.x - p.x) * (q.x - p.x) + (q.y - p.y) * (q.y - p.y) < 65536;
            s.filter(|x: WireDraw| !touches(x, p)).contains(w) <==> s.contains(w) && !close(w.from) && !close(
                w.to,
            )
        }),
{
    crate::text::lemma_filtered(s, |x: WireDraw| !touches(x, p), w);
}

/// A span is given up where it hangs in the open and was not drawn in the last frames;
/// an end is held by an entity on its tile or on one of the eight around it.
pub proof fn lemma_spans_given_up(s: Seq<WireDraw>, cells: Set<Cell>, frame: u64, window: u64, w: WireDraw)
    ensures
        ({
            let held = |p: MapPos|
                exists|dx: int, dy: int|
                    -1 <= dx <= 1 && -1 <= dy <= 1 && #[trigger] cells.contains(shifted(cell_of(p), dx, dy));
            s.filter(|x: WireDraw| stays(x, cells, frame, window)).contains(w) <==> s.contains(w) && ((held(w.from)
                && held(w.to)) || frame - w.seen < window)
        }),
{
    crate::text::lemma_filtered(s, |x: WireDraw| stays(x, cells, frame, window), w);
}

/// A shadow of a wire is drawn by nobody, ghosts and loose ends by the game, and every
/// other span is recorded.
pub proof fn lemma_uses_of_spans(ghost: bool, from: u64, to: u64, shadow: u8, r: SpanUse)
    requires
        call_ensures(hooked_wire_seg, (ghost, from, to, shadow), r),
    ensures
        r == SpanUse::Recorded <==> !ghost && from != 0 && to != 0 && shadow == 0,
        r == SpanUse::Dropped <==> !ghost && from != 0 && to != 0 && shadow != 0,
{
}

/// A wire hangs higher at an end that has a pole on its tile or on one around it.
pub proof fn lemma_ends_at_poles(poles: &CellSet, p: MapPos, r: bool, c: Cell)
    requires
        call_ensures(near_pole, (poles, p), r),
    ensures
        poles@.contains(c) && -1 <= c.x - p.x as int / 256 <= 1 && -1 <= c.y - p.y as int / 256 <= 1 ==> r,
        r ==> exists|d: Cell| #[trigger]
            poles@.contains(d) && -1 <= d.x - p.x as int / 256 <= 1 && -1 <= d.y - p.y as int / 256 <= 1,
{
    let o = cell_of(p);
    if poles@.contains(c) && -1 <= c.x - o.x <= 1 && -1 <= c.y - o.y <= 1 {
        let dx = c.x - o.x;
        let dy = c.y - o.y;
        assert(shifted(o, dx, dy) == c);
        assert(poles@.contains(shifted(o, dx, dy)));
    }
    if r {
        let (dx, dy) = choose|dx: int, dy: int|
            -1 <= dx <= 1 && -1 <= dy <= 1 && #[trigger] poles@.contains(shifted(o, dx, dy));
        assert(poles@.contains(shifted(o, dx, dy)));
    }
}

/// The colour of a sprite is that of its own names, or else of those around it, or else
/// copper.
pub proof fn lemma_color_of_a_sprite(mem: Memory, sprite: int)
    ensures
        ({
            let own = first_color(strings_in(mem, sprite, 192));
            let near = first_color(sprite_strings(mem, sprite));
            &&& own is Some ==> color_of(mem, sprite) == own->0
            &&& own is None && near is Some ==> color_of(mem, sprite) == near->0
            &&& own is None && near is None ==> color_of(mem, sprite) == (Color {
                r: 0x3F38_51EC,
                g: 0x3EE6_6666,
                b: 0x3E8F_5C29,
                a: 0x3F80_0000,
            })
        }),
{
}

} // verus!
