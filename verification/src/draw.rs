//! What is being drawn: flags that are set while the game draws an entity, and
//! what the direction of sprites becomes when the camera is turned.

use vstd::prelude::*;

verus! {

/// No tracked draw is going on.
pub const NO_LAYER: u8 = 255;

/// What the current thread is drawing.
#[derive(Clone, Copy, PartialEq, Eq, Structural, Debug)]
pub struct DrawContext {
    /// The layer of the current draw; `NO_LAYER` outside of one.
    pub layer: u8,
    pub in_character: bool,
    /// How many vehicle or unit draws are nested: classes call their base's draw.
    pub entity_depth: u32,
    /// The game prepares its sprites.
    pub in_prepare: bool,
    /// Sprites are laid flat.
    pub in_flat: bool,
    /// Flying robots.
    pub in_fly: bool,
    /// Sprites are laid flat on a low platform.
    pub flat_elevated: bool,
    pub in_crane: bool,
    pub unit_depth: u32,
    /// How many draws of buildings with a direction are nested.
    pub static_depth: u32,
    /// The serial number of the entity; 0 for none.
    pub serial: u32,
}

impl DrawContext {
    /// Nothing is being drawn.
    pub open spec fn idle() -> DrawContext {
        DrawContext {
            layer: 255,
            in_character: false,
            entity_depth: 0,
            in_prepare: false,
            in_flat: false,
            in_fly: false,
            flat_elevated: false,
            in_crane: false,
            unit_depth: 0,
            static_depth: 0,
            serial: 0,
        }
    }

    pub fn new() -> (r: DrawContext)
        ensures
            r == DrawContext::idle(),
    {
        DrawContext {
            layer: NO_LAYER,
            in_character: false,
            entity_depth: 0,
            in_prepare: false,
            in_flat: false,
            in_fly: false,
            flat_elevated: false,
            in_crane: false,
            unit_depth: 0,
            static_depth: 0,
            serial: 0,
        }
    }
}

/// The serial number that is handed out next to `n`: 0 is none.
pub open spec fn serial_of(n: u32) -> u32 {
    if n == 0 {
        1
    } else {
        n
    }
}

pub open spec fn next_serial(n: u32) -> u32 {
    ((n + 1) % 0x1_0000_0000) as u32
}

fn hand_out(next: &mut u32) -> (r: u32)
    ensures
        r == serial_of(*old(next)),
        *final(next) == next_serial(*old(next)),
{
    let n: u32 = *next;
    *next = n.wrapping_add(1);
    if n == 0 {
        1
    } else {
        n
    }
}

/// The player is about to be drawn: its sprites share a serial number.
pub fn begin_character(c: &mut DrawContext, next: &mut u32)
    ensures
        *final(c) == (DrawContext {
            serial: serial_of(*old(next)),
            in_character: true,
            ..*old(c)
        }),
        *final(next) == next_serial(*old(next)),
{
    c.serial = hand_out(next);
    c.in_character = true;
}

/// The player has been drawn.
pub fn end_character(c: &mut DrawContext)
    ensures
        *final(c) == (DrawContext { serial: 0, in_character: false, ..*old(c) }),
{
    c.in_character = false;
    c.serial = 0;
}

/// The context while a vehicle or a unit is drawn. The outermost draw has a
/// serial number of its own.
pub open spec fn vehicle_begun(c: DrawContext, next: u32, unit: bool, fly: bool) -> DrawContext {
    DrawContext {
        unit_depth: if unit {
            (c.unit_depth + 1) as u32
        } else {
            c.unit_depth
        },
        in_fly: c.in_fly || fly,
        entity_depth: (c.entity_depth + 1) as u32,
        serial: if c.entity_depth == 0 {
            serial_of(next)
        } else {
            c.serial
        },
        ..c
    }
}

/// The context after a vehicle or a unit was drawn.
pub open spec fn vehicle_ended(c: DrawContext, unit: bool, fly: bool) -> DrawContext {
    let depth: u32 = if c.entity_depth == 0 {
        0
    } else {
        (c.entity_depth - 1) as u32
    };
    DrawContext {
        entity_depth: depth,
        serial: if depth == 0 {
            0
        } else {
            c.serial
        },
        in_fly: c.in_fly && !fly,
        unit_depth: if unit && c.unit_depth > 0 {
            (c.unit_depth - 1) as u32
        } else {
            c.unit_depth
        },
        ..c
    }
}

/// A vehicle or a unit is about to be drawn. Units stand on their lower edge,
/// and robots fly.
pub fn begin_vehicle(c: &mut DrawContext, next: &mut u32, unit: bool, fly: bool)
    requires
        old(c).entity_depth < u32::MAX,
        old(c).unit_depth < u32::MAX,
    ensures
        *final(c) == vehicle_begun(*old(c), *old(next), unit, fly),
        *final(next) == if old(c).entity_depth == 0 {
            next_serial(*old(next))
        } else {
            *old(next)
        },
{
    if unit {
        c.unit_depth = c.unit_depth + 1;
    }
    if fly {
        c.in_fly = true;
    }
    let depth: u32 = c.entity_depth;
    c.entity_depth = depth + 1;
    if depth == 0 {
        c.serial = hand_out(next);
    }
}

/// A vehicle or a unit has been drawn.
pub fn end_vehicle(c: &mut DrawContext, unit: bool, fly: bool)
    ensures
        *final(c) == vehicle_ended(*old(c), unit, fly),
{
    if c.entity_depth > 0 {
        c.entity_depth = c.entity_depth - 1;
    }
    if c.entity_depth == 0 {
        c.serial = 0;
    }
    if fly {
        c.in_fly = false;
    }
    if unit && c.unit_depth > 0 {
        c.unit_depth = c.unit_depth - 1;
    }
}

/// A draw leaves the context as it found it: an outermost one, and one that is
/// nested in another of the same entity.
pub proof fn lemma_vehicle_restores(c: DrawContext, next: u32, unit: bool, fly: bool)
    requires
        c.entity_depth < u32::MAX,
        c.unit_depth < u32::MAX,
        c.entity_depth == 0 ==> c.serial == 0,
        fly ==> !c.in_fly,
    ensures
        vehicle_ended(vehicle_begun(c, next, unit, fly), unit, fly) == c,
        vehicle_begun(c, next, unit, fly).entity_depth > 0,
        c.entity_depth == 0 ==> vehicle_begun(c, next, unit, fly).serial != 0,
        c.entity_depth > 0 ==> vehicle_begun(c, next, unit, fly).serial == c.serial,
{
}

/// The crane's arm is drawn, or has been.
pub fn set_crane(c: &mut DrawContext, on: bool)
    ensures
        *final(c) == (DrawContext { in_crane: on, ..*old(c) }),
{
    c.in_crane = on;
}

/// Something flat is drawn, or has been; it may stand on a low platform.
pub fn set_flat(c: &mut DrawContext, on: bool, elevated: bool)
    ensures
        *final(c) == (DrawContext {
            in_flat: on,
            flat_elevated: if elevated {
                on
            } else {
                old(c).flat_elevated
            },
            ..*old(c)
        }),
{
    c.in_flat = on;
    if elevated {
        c.flat_elevated = on;
    }
}

/// A sprite of a layer is drawn, or has been.
pub fn set_layer(c: &mut DrawContext, layer: u8)
    ensures
        *final(c) == (DrawContext { layer, ..*old(c) }),
{
    c.layer = layer;
}

/// Something is being drawn by this thread, so the camera may have a say.
pub open spec fn drawing(c: DrawContext) -> bool {
    c.in_prepare || c.entity_depth > 0 || c.static_depth > 0 || c.in_character
}

/// The direction of sprites follows the camera: only while something is drawn,
/// so that no camera state reaches the simulation. Angles are in tenths of a
/// degree.
pub open spec fn turns(c: DrawContext, enabled: bool, yaw: i32) -> bool {
    drawing(c) && enabled && (yaw > 10 || yaw < -10)
}

/// The yaw by which orientations turn, where they do.
pub fn frame_rot_delta(c: &DrawContext, enabled: bool, yaw: i32) -> (r: Option<i32>)
    ensures
        r == if turns(*c, enabled, yaw) {
            Some(yaw)
        } else {
            None
        },
{
    let in_draw: bool = c.in_prepare || c.entity_depth > 0 || c.static_depth > 0 || c.in_character;
    if !in_draw || !enabled || !(yaw > 10 || yaw < -10) {
        return None;
    }
    Some(yaw)
}

/// The quarter turns of the camera, to the nearest.
pub open spec fn quarters(yaw: int) -> int {
    (yaw + 450) / 900 % 4
}

/// The quarter turns by which directions turn.
pub fn dir_rot_steps(c: &DrawContext, enabled: bool, yaw: i32) -> (r: u8)
    requires
        0 <= yaw < 3600,
    ensures
        r == if turns(*c, enabled, yaw) {
            quarters(yaw as int)
        } else {
            0
        },
        r < 4,
{
    match frame_rot_delta(c, enabled, yaw) {
        Some(y) => ((y + 450) / 900 % 4) as u8,
        None => 0,
    }
}

/// A direction of sixteen after quarter turns.
pub open spec fn turned_dir(d: int, q: int) -> int {
    (d + 4 * q) % 16
}

/// A direction of sixteen after quarter turns; what is no direction stays.
pub fn turn_dir(d: u8, q: u8) -> (r: u8)
    requires
        q < 4,
    ensures
        r == if d < 16 {
            turned_dir(d as int, q as int)
        } else {
            d as int
        },
{
    if d < 16 {
        (d + 4 * q) % 16
    } else {
        d
    }
}

/// Four quarter turns are none, and turns add up.
pub proof fn lemma_turns_add_up(d: int, p: int, q: int)
    requires
        0 <= d < 16,
        0 <= p < 4,
        0 <= q < 4,
    ensures
        turned_dir(d, 0) == d,
        turned_dir(d, 4) == d,
        turned_dir(turned_dir(d, p), q) == turned_dir(d, (p + q) % 4),
        turned_dir(turned_dir(d, q), (4 - q) % 4) == d,
{
    assert((p + q) % 4 == if p + q >= 4 {
        p + q - 4
    } else {
        p + q
    });
    assert(turned_dir(d, p) == if d + 4 * p >= 16 {
        d + 4 * p - 16
    } else {
        d + 4 * p
    });
    assert(turned_dir(d, q) == if d + 4 * q >= 16 {
        d + 4 * q - 16
    } else {
        d + 4 * q
    });
}

/// Four bits turned left once: the bit that leaves at the top comes in at the
/// bottom.
pub open spec fn turned_once(m: int) -> int {
    m * 2 % 16 + m / 8
}

/// Four bits turned left `q` times.
pub open spec fn turned_bits(m: int, q: nat) -> int
    decreases q,
{
    if q == 0 {
        m
    } else {
        turned_once(turned_bits(m, (q - 1) as nat))
    }
}

/// The connections of a pipe after quarter turns: the four low bits turn, the
/// others stay.
pub fn pipe_group_compute(mask: u8, q: u8) -> (r: u8)
    requires
        q < 4,
    ensures
        r as int == turned_bits(mask as int % 16, q as nat) + (mask as int / 16) * 16,
{
    let mut m: u8 = mask % 16;
    let mut i: u8 = 0;
    while i < q
        invariant
            i <= q,
            m < 16,
            m as int == turned_bits(mask as int % 16, i as nat),
        decreases q - i,
    {
        m = m * 2 % 16 + m / 8;
        i = i + 1;
    }
    m + mask / 16 * 16
}

proof fn lemma_bits_range(m: int, q: nat)
    requires
        0 <= m < 16,
    ensures
        0 <= turned_bits(m, q) < 16,
        m == 0 <==> turned_bits(m, q) == 0,
    decreases q,
{
    if q > 0 {
        lemma_bits_range(m, (q - 1) as nat);
    }
}

proof fn lemma_bits_add(m: int, p: nat, q: nat)
    ensures
        turned_bits(turned_bits(m, p), q) == turned_bits(m, p + q),
    decreases q,
{
    if q > 0 {
        lemma_bits_add(m, p, (q - 1) as nat);
    }
}

proof fn lemma_once(m: int) -> (r: int)
    requires
        0 <= m < 16,
    ensures
        r == turned_once(m),
        r == if m >= 8 {
            2 * m - 15
        } else {
            2 * m
        },
        0 <= r < 16,
{
    turned_once(m)
}

proof fn lemma_four_turns(m: int)
    requires
        0 <= m < 16,
    ensures
        turned_bits(m, 4) == m,
{
    let a = lemma_once(m);
    let b = lemma_once(a);
    let c = lemma_once(b);
    let d = lemma_once(c);
    assert(d == m);
    assert(turned_bits(m, 1) == turned_once(turned_bits(m, 0)));
    assert(turned_bits(m, 2) == turned_once(turned_bits(m, 1)));
    assert(turned_bits(m, 3) == turned_once(turned_bits(m, 2)));
}

/// Four quarter turns of a pipe are none, turns add up, and a pipe without a
/// connection stays one.
pub proof fn lemma_pipe_turns(m: int, p: nat, q: nat)
    requires
        0 <= m < 16,
        p < 4,
        q < 4,
    ensures
        0 <= turned_bits(m, q) < 16,
        turned_bits(m, 4) == m,
        turned_bits(turned_bits(m, p), q) == turned_bits(m, (p + q) % 4),
        m == 0 <==> turned_bits(m, q) == 0,
{
    lemma_bits_range(m, q);
    lemma_bits_add(m, p, q);
    lemma_four_turns(m);
    if p + q >= 4 {
        lemma_bits_add(m, 4, (p + q - 4) as nat);
    }
}

/// The bits of an orientation from 0 up to 1 as a 32-bit float.
pub open spec fn proper_orientation(bits: u32) -> bool {
    bits < 0x3F80_0000 || bits == 0x8000_0000
}

/// Whether the bits of an orientation are turned: only those of a number from 0
/// up to 1 are.
pub fn ari_frame_compute(c: &DrawContext, enabled: bool, yaw: i32, bits: u32) -> (r: bool)
    ensures
        r == (turns(*c, enabled, yaw) && proper_orientation(bits)),
{
    frame_rot_delta(c, enabled, yaw).is_some() && (bits < 0x3F80_0000 || bits == 0x8000_0000)
}

/// A building with a direction is about to be drawn. The result is what its
/// direction becomes for the draw, where it changes: only a proper direction
/// does, and none while the map is being saved.
pub fn begin_directional(c: &mut DrawContext, enabled: bool, yaw: i32, saving: bool, dir: Option<u8>) -> (r: Option<u8>)
    requires
        old(c).static_depth < u32::MAX,
        0 <= yaw < 3600,
    ensures
        *final(c) == (DrawContext { static_depth: (old(c).static_depth + 1) as u32, ..*old(c) }),
        ({
            let q = if enabled && yaw > 10 {
                quarters(yaw as int)
            } else {
                0
            };
            r == if q != 0 && !saving && dir is Some && dir->0 < 16 {
                Some(turned_dir(dir->0 as int, q) as u8)
            } else {
                None
            }
        }),
{
    c.static_depth = c.static_depth + 1;
    let q: u8 = dir_rot_steps(c, enabled, yaw);
    match dir {
        Some(d) => if q != 0 && !saving && d < 16 {
            Some(turn_dir(d, q))
        } else {
            None
        },
        None => None,
    }
}

/// A building with a direction has been drawn. The result is what its direction
/// is set back to, where it was changed.
pub fn end_directional(c: &mut DrawContext, before: u8, changed: Option<u8>) -> (r: Option<u8>)
    ensures
        *final(c) == (DrawContext {
            static_depth: if old(c).static_depth == 0 {
                0
            } else {
                (old(c).static_depth - 1) as u32
            },
            ..*old(c)
        }),
        r == if changed is Some {
            Some(before)
        } else {
            None
        },
{
    if c.static_depth > 0 {
        c.static_depth = c.static_depth - 1;
    }
    if changed.is_some() {
        Some(before)
    } else {
        None
    }
}

/// A quarter turn takes a direction of sixteen four steps clockwise, from the last
/// quarter back to the first.
pub proof fn lemma_quarter_turn(d: int, q: int)
    requires
        0 <= d < 16,
        0 <= q < 4,
    ensures
        turned_dir(d, q) == if d + 4 * q < 16 {
            d + 4 * q
        } else {
            d + 4 * q - 16
        },
{
}

/// The camera counts as turned by the quarter that its yaw is nearest to.
pub proof fn lemma_nearest_quarter(yaw: int)
    requires
        0 <= yaw < 3600,
    ensures
        yaw < 450 || yaw >= 3150 ==> quarters(yaw) == 0,
        450 <= yaw < 1350 ==> quarters(yaw) == 1,
        1350 <= yaw < 2250 ==> quarters(yaw) == 2,
        2250 <= yaw < 3150 ==> quarters(yaw) == 3,
{
}

/// A connection of a pipe goes to the next side clockwise with each quarter turn, and
/// from the last side to the first.
pub proof fn lemma_connection_moves_on(m: int, q: nat)
    requires
        0 <= m < 16,
    ensures
        turned_bits(m, 0) == m,
        turned_bits(m, q + 1) == if turned_bits(m, q) >= 8 {
            2 * turned_bits(m, q) - 15
        } else {
            2 * turned_bits(m, q)
        },
{
    lemma_bits_range(m, q);
    let r = lemma_once(turned_bits(m, q));
}

/// Directions and orientations follow the camera only while this thread draws, only
/// while the view is turned, and only by more than a degree; an orientation follows
/// by the very angle of the camera, a direction by the nearest quarter.
pub proof fn lemma_only_drawing_follows_the_camera(
    c: &DrawContext,
    enabled: bool,
    yaw: i32,
    bits: u32,
    delta: Option<i32>,
    steps: u8,
    turned: bool,
)
    requires
        0 <= yaw < 3600,
        call_ensures(frame_rot_delta, (c, enabled, yaw), delta),
        call_ensures(dir_rot_steps, (c, enabled, yaw), steps),
        call_ensures(ari_frame_compute, (c, enabled, yaw, bits), turned),
    ensures
        ({
            let follows = enabled && yaw > 10 && (c.in_prepare || c.in_character || c.entity_depth > 0
                || c.static_depth > 0);
            &&& follows ==> delta == Some(yaw)
            &&& !follows ==> delta is None
            &&& follows ==> steps == quarters(yaw as int)
            &&& !follows ==> steps == 0
            &&& turned == (follows && (bits < 0x3F80_0000 || bits == 0x8000_0000))
        }),
{
}

/// While a vehicle or a unit is drawn, it and what it is made of share a serial
/// number that is none of another's: a fresh one for the outermost draw. Units and
/// robots are told by the draw that they are in.
pub proof fn lemma_vehicle_is_told(c: DrawContext, next: u32, unit: bool, fly: bool)
    requires
        c.entity_depth < u32::MAX,
        c.unit_depth < u32::MAX,
    ensures
        ({
            let b = vehicle_begun(c, next, unit, fly);
            &&& b.entity_depth == c.entity_depth + 1
            &&& c.entity_depth == 0 && next != 0 ==> b.serial == next
            &&& c.entity_depth == 0 && next == 0 ==> b.serial == 1
            &&& c.entity_depth > 0 ==> b.serial == c.serial
            &&& unit ==> b.unit_depth == c.unit_depth + 1
            &&& !unit ==> b.unit_depth == c.unit_depth
            &&& b.in_fly == (c.in_fly || fly)
            &&& b.in_character == c.in_character && b.static_depth == c.static_depth && b.layer == c.layer
        }),
        next < u32::MAX ==> next_serial(next) == next + 1,
        next == u32::MAX ==> next_serial(next) == 0,
        ({
            let e = vehicle_ended(c, unit, fly);
            &&& c.entity_depth > 0 ==> e.entity_depth == c.entity_depth - 1
            &&& c.entity_depth == 0 ==> e.entity_depth == 0
            &&& c.entity_depth <= 1 ==> e.serial == 0
            &&& c.entity_depth > 1 ==> e.serial == c.serial
            &&& e.in_fly == (c.in_fly && !fly)
            &&& unit && c.unit_depth > 0 ==> e.unit_depth == c.unit_depth - 1
            &&& !unit || c.unit_depth == 0 ==> e.unit_depth == c.unit_depth
        }),
{
}

} // verus!
