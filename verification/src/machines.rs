//! What the draws of machines, buildings and vehicles tell of them, and what
//! becomes of each draw.

use crate::entities::{
    drawn_again, ghost_views, ghosts_ok, grid_with, known_before, loads_after, record, record_ghost,
    set_active, set_anim_rate, set_arm_angle, set_morph, set_rocket, takes_over, with_ghost,
    Entities, EntityState, Ghost3d, GhostSpec, Record,
};
use crate::getters::Getters;
use crate::hooks::MapPos;
use crate::models::{EntityModel, Registry};
use crate::mem::{number_at, try_read_off, word_at, Memory};
use crate::symbols::{by_symbol, symbol_address, DrawTarget, SymbolMap};
use vstd::prelude::*;

verus! {

/// Where the state of a crafting machine's animation has its tick and its frame.
pub const CM_ANIM_TICK: u64 = 0x10;

pub const CM_ANIM_FRAME: u64 = 0x4;

/// Where the state of a drill's animation has the two numbers that count up.
pub const MD_ANIM_LO: u64 = 0x0;

pub const MD_ANIM_HI: u64 = 0x8;

/// What tells the states of a crafting machine apart: its tick, with its frame
/// mixed into the upper bits.
pub open spec fn crafting_print(tick: u64, frame: u64) -> u64 {
    tick ^ (frame << 48)
}

/// What changes while a crafting machine works.
pub fn anim_fingerprint(mem: &Memory, anim: u64) -> (r: u64)
    requires
        mem.wf(),
        anim != 0 ==> mem.can_read(anim + 0x10, 8) && mem.can_read(anim + 0x4, 2),
    ensures
        r == if anim == 0 {
            0
        } else {
            crafting_print(
                number_at(*mem, anim + 0x10, 8) as u64,
                number_at(*mem, anim + 0x4, 2) as u64,
            )
        },
{
    if anim == 0 {
        return 0;
    }
    match (try_read_off(mem, anim, CM_ANIM_TICK, 8), try_read_off(mem, anim, CM_ANIM_FRAME, 2)) {
        (Some(tick), Some(frame)) => tick ^ (frame << 48),
        _ => 0,
    }
}

/// What changes while a drill works: two numbers that count up, side by side.
pub open spec fn drill_print(mem: Memory, anim: int) -> nat {
    if mem.can_read(anim, 0x10) {
        number_at(mem, anim, 4) + number_at(mem, anim + 0x8, 4) * 0x1_0000_0000
    } else {
        0
    }
}

/// What changes while a drill works.
pub fn mining_drill_fp(mem: &Memory, anim: u64) -> (r: u64)
    requires
        mem.wf(),
    ensures
        r == drill_print(*mem, anim as int),
{
    if anim == 0 || !crate::mem::readable(mem, anim, 0x10) {
        return 0;
    }
    proof {
        assert forall|k: int| 0 <= k < 4 implies #[trigger] mem.readable_at(anim + 0 + k) by {
            assert(mem.readable_at(anim + k));
        }
        assert forall|k: int| 0 <= k < 4 implies #[trigger] mem.readable_at(anim + 0x8 + k) by {
            assert(mem.readable_at(anim + (0x8 + k)));
        }
        lemma_four(mem.bytes_at(anim as int, 4));
        lemma_four(mem.bytes_at(anim + 0x8, 4));
    }
    match (try_read_off(mem, anim, MD_ANIM_LO, 4), try_read_off(mem, anim, MD_ANIM_HI, 4)) {
        (Some(lo), Some(hi)) => lo + hi * 0x1_0000_0000,
        _ => 0,
    }
}

proof fn lemma_four(b: Seq<u8>)
    requires
        b.len() == 4,
    ensures
        crate::util::le_value(b) < 0x1_0000_0000,
{
    crate::util::lemma_le_value_bound(b);
    reveal_with_fuel(crate::util::bytes_range, 5);
}

/// A drill's state changes exactly where one of its two numbers does.
pub proof fn lemma_drill_print(a: int, b: int, c: int, d: int)
    requires
        0 <= a < 0x1_0000_0000,
        0 <= b < 0x1_0000_0000,
        0 <= c < 0x1_0000_0000,
        0 <= d < 0x1_0000_0000,
    ensures
        a + b * 0x1_0000_0000 == c + d * 0x1_0000_0000 <==> a == c && b == d,
{
}

/// What becomes of a draw of the game.
#[derive(Clone, Copy, PartialEq, Eq, Structural, Debug)]
pub enum DrawUse {
    /// The game draws it.
    Plain,
    /// The game draws it, and a see-through model is drawn on top.
    SeeThrough,
    /// It is recorded, and the game draws it only where no model is shown.
    Recorded,
}

/// What becomes of the sprites of a machine within its draw. Previews in menus
/// stay as they are.
pub fn record_current(preview: bool, entity: u64, has_model: bool, pos: u64, ghost: bool) -> (r: DrawUse)
    ensures
        r == if preview || !has_model || entity == 0 || pos == 0 {
            DrawUse::Plain
        } else if ghost {
            DrawUse::SeeThrough
        } else {
            DrawUse::Recorded
        },
{
    if preview || !has_model || entity == 0 || pos == 0 {
        DrawUse::Plain
    } else if ghost {
        DrawUse::SeeThrough
    } else {
        DrawUse::Recorded
    }
}

/// What becomes of the draw of a building, a vehicle or a turret.
pub fn draw_use(has_model: bool, ghost: bool, preview: bool, has_pos: bool) -> (r: DrawUse)
    ensures
        r == if !has_model || preview || !has_pos {
            DrawUse::Plain
        } else if ghost {
            DrawUse::SeeThrough
        } else {
            DrawUse::Recorded
        },
{
    if !has_model || preview || !has_pos {
        DrawUse::Plain
    } else if ghost {
        DrawUse::SeeThrough
    } else {
        DrawUse::Recorded
    }
}

/// What a draw reads of a building or a vehicle. Numbers are the bits of floats.
#[derive(Clone, Copy, PartialEq, Eq, Structural, Debug)]
pub struct DrawReads {
    /// The position, in tiles.
    pub x: u32,
    pub y: u32,
    /// The orientation of what has one.
    pub orientation: Option<u32>,
    /// How far a gate is open.
    pub gate: Option<u32>,
    /// How far the arm of an inserter has come.
    pub progress: Option<u64>,
    /// The animation runs whenever it is drawn.
    pub anim_on_draw: bool,
}

/// What changes while a building or a vehicle works: what moves, moves; a gate
/// opens; an arm swings; some are merely drawn.
pub open spec fn generic_print(d: DrawReads, frame: u64) -> u64 {
    match (d.orientation, d.gate, d.progress) {
        (Some(o), _, _) => (((d.x as u64) << 32) ^ (d.y as u64)) ^ ((o as u64) << 16),
        (None, Some(g), _) => g as u64,
        (None, None, Some(p)) => p,
        (None, None, None) => if d.anim_on_draw {
            frame
        } else {
            0
        },
    }
}

/// What changes while a building or a vehicle works.
pub fn generic_fingerprint(d: &DrawReads, frame: u64) -> (r: u64)
    ensures
        r == generic_print(*d, frame),
{
    match d.orientation {
        Some(o) => {
            return (((d.x as u64) << 32) ^ (d.y as u64)) ^ ((o as u64) << 16);
        },
        None => {},
    }
    match d.gate {
        Some(g) => {
            return g as u64;
        },
        None => {},
    }
    match d.progress {
        Some(p) => p,
        None => if d.anim_on_draw {
            frame
        } else {
            0
        },
    }
}

/// The bits of a number from 0 to 1 as a 32-bit float.
pub fn turret_of(bits: u32) -> (r: Option<u32>)
    ensures
        r == if crate::getters::unit_single(bits) {
            Some(bits)
        } else {
            None
        },
{
    if crate::getters::is_unit_single(bits) {
        Some(bits)
    } else {
        None
    }
}

/// A coordinate to the nearest tile, in 256ths of one; halves go away from 0.
pub open spec fn round_tile(v: int) -> int {
    if v >= 0 {
        (v + 128) / 256 * 256
    } else {
        -((128 - v) / 256 * 256)
    }
}

/// The footprint of a model, in thousandths of a tile, is an odd number of tiles
/// to the nearest.
pub open spec fn odd_tiles(tiles: u32) -> bool {
    (tiles + 500) / 1000 % 2 == 1
}

/// A coordinate on the grid of what is built: what is an odd number of tiles
/// wide stands in the middle of a tile, other things between tiles.
pub open spec fn snapped(v: int, odd: bool) -> int {
    if odd {
        round_tile(v - 128) + 128
    } else {
        round_tile(v)
    }
}

fn round_to_tile(v: i64) -> (r: i64)
    requires
        -0x1_0000_0000 <= v <= 0x1_0000_0000,
    ensures
        r == round_tile(v as int),
{
    if v >= 0 {
        (v + 128) / 256 * 256
    } else {
        -((128 - v) / 256 * 256)
    }
}

/// A coordinate on the grid of what is built.
pub fn snap(v: i32, tiles: u32) -> (r: i64)
    ensures
        r == snapped(v as int, odd_tiles(tiles)),
{
    if (tiles as u64 + 500) / 1000 % 2 == 1 {
        round_to_tile(v as i64 - 128) + 128
    } else {
        round_to_tile(v as i64)
    }
}

/// What is snapped is on the grid, is at most half a tile away, and stays where
/// it is when it is snapped again.
pub proof fn lemma_snap(v: int, odd: bool)
    ensures
        (snapped(v, odd) - (if odd {
            128int
        } else {
            0
        })) % 256 == 0,
        -128 <= snapped(v, odd) - v <= 128,
        snapped(snapped(v, odd), odd) == snapped(v, odd),
{
}

/// Where the view keeps the direction of what is being built.
pub const GAMEVIEW_BUILD_DIR: u64 = 0x8;

pub const GAMEVIEW_DIR_CHAIN_A: u64 = 0x30;

pub const GAMEVIEW_DIR_CHAIN_B: u64 = 0x1C0;

pub const DIR_OVERRIDE_VALUE: u64 = 0x58;

pub const DIR_OVERRIDE_FLAG: u64 = 0x59;

/// The direction of what is being built: another one wins where its flag is
/// set. Where something cannot be read it is north.
pub open spec fn cursor_dir_of(mem: Memory, view: int) -> int {
    let a = word_at(mem, view + 0x30) as int;
    let b = word_at(mem, a + 0x1C0) as int;
    if !mem.can_read(view + 0x30, 8) || !mem.can_read(a + 0x1C0, 8) || !mem.can_read(b + 0x59, 1) {
        0
    } else if number_at(mem, b + 0x59, 1) != 0 {
        if mem.can_read(b + 0x58, 1) {
            number_at(mem, b + 0x58, 1) as int % 16
        } else {
            0
        }
    } else if mem.can_read(view + 0x8, 1) {
        number_at(mem, view + 0x8, 1) as int % 16
    } else {
        0
    }
}

/// The direction of what is being built.
pub fn cursor_dir(mem: &Memory, view: u64) -> (r: u8)
    requires
        mem.wf(),
    ensures
        r == cursor_dir_of(*mem, view as int),
        r < 16,
{
    let a: u64 = match try_read_off(mem, view, GAMEVIEW_DIR_CHAIN_A, 8) {
        Some(a) => a,
        None => {
            return 0;
        },
    };
    let b: u64 = match try_read_off(mem, a, GAMEVIEW_DIR_CHAIN_B, 8) {
        Some(b) => b,
        None => {
            return 0;
        },
    };
    let flag: u64 = match try_read_off(mem, b, DIR_OVERRIDE_FLAG, 1) {
        Some(f) => f,
        None => {
            return 0;
        },
    };
    let d: Option<u64> = if flag != 0 {
        try_read_off(mem, b, DIR_OVERRIDE_VALUE, 1)
    } else {
        try_read_off(mem, view, GAMEVIEW_BUILD_DIR, 1)
    };
    match d {
        Some(d) => (d % 16) as u8,
        None => 0,
    }
}

/// The most classes of buildings and vehicles.
pub const MAX_GENERIC: usize = 44;

/// The getters of a class of buildings or vehicles; 0 for one that it has not.
#[derive(Clone, Copy, PartialEq, Eq, Structural, Debug)]
pub struct GenericHook {
    pub oriented: bool,
    pub anim_on_draw: bool,
    pub dir_addr: u64,
    pub orient_addr: u64,
    pub turret_addr: u64,
    pub progress_addr: u64,
    pub wire_off: u64,
    pub activity_addr: u64,
    pub gate_off: u64,
}

/// The address of a symbol, or else another one.
pub open spec fn address_or(symbols: SymbolMap, part: Seq<char>, other: u64) -> u64 {
    match symbol_address(symbols, part) {
        Some(a) => a,
        None => other,
    }
}

/// The getters of a class: its own, and those of all entities where it has none.
pub open spec fn hook_of(symbols: SymbolMap, t: DrawTarget, g: Getters) -> GenericHook {
    GenericHook {
        oriented: t.oriented,
        anim_on_draw: t.anim_on_draw,
        dir_addr: address_or(symbols, t.dir_sym@, g.base_dir),
        orient_addr: address_or(symbols, t.orient_sym@, g.base_orient),
        turret_addr: address_or(symbols, t.turret_sym@, 0),
        progress_addr: address_or(symbols, t.progress_sym@, 0),
        wire_off: t.wire_off,
        activity_addr: address_or(symbols, t.activity_sym@, 0),
        gate_off: t.gate_off,
    }
}

fn find_or(symbols: &SymbolMap, part: &str, other: u64) -> (r: u64)
    requires
        symbols.wf(),
    ensures
        r == address_or(*symbols, part@, other),
{
    match by_symbol(symbols, part) {
        Some(a) => a,
        None => other,
    }
}

/// The getters of the classes of buildings and vehicles, as many as there is
/// room for.
pub fn generic_hooks(symbols: &SymbolMap, targets: &Vec<DrawTarget>, g: &Getters) -> (r: Vec<GenericHook>)
    requires
        symbols.wf(),
    ensures
        r@.len() == if targets@.len() < MAX_GENERIC {
            targets@.len() as int
        } else {
            MAX_GENERIC as int
        },
        forall|i: int|
            0 <= i < r@.len() ==> #[trigger] r@[i] == hook_of(*symbols, targets@[i], *g),
{
    let mut out: Vec<GenericHook> = Vec::new();
    let mut i: usize = 0;
    while i < targets.len() && i < MAX_GENERIC
        invariant
            symbols.wf(),
            i <= targets.len(),
            i <= MAX_GENERIC,
            out@.len() == i,
            forall|j: int|
                0 <= j < i ==> #[trigger] out@[j] == hook_of(*symbols, targets@[j], *g),
        decreases targets.len() - i,
    {
        let t: DrawTarget = targets[i];
        out.push(
            GenericHook {
                oriented: t.oriented,
                anim_on_draw: t.anim_on_draw,
                dir_addr: find_or(symbols, t.dir_sym, g.base_dir),
                orient_addr: find_or(symbols, t.orient_sym, g.base_orient),
                turret_addr: find_or(symbols, t.turret_sym, 0),
                progress_addr: find_or(symbols, t.progress_sym, 0),
                wire_off: t.wire_off,
                activity_addr: find_or(symbols, t.activity_sym, 0),
                gate_off: t.gate_off,
            },
        );
        i = i + 1;
    }
    out
}

/// What a draw tells of a building or a vehicle.
#[derive(Clone, Copy, PartialEq, Eq, Structural, Debug)]
pub struct GenericDraw {
    pub entity: u64,
    /// Its position on the map; nothing where it cannot be read.
    pub pos: Option<MapPos>,
    pub dir: u8,
    pub turret: Option<u32>,
    pub surface: u64,
    pub reads: DrawReads,
    /// How far the model of a gate has sunk, as the bits of a 32-bit float.
    pub morph: Option<u32>,
    /// Whether it is at work, for what says so.
    pub at_work: Option<bool>,
    /// It is an inserter: how fast its arm turns and at which angle it stands,
    /// as the bits of 32-bit floats, as far as they can be read.
    pub inserter: bool,
    pub rate: Option<u32>,
    pub arm: Option<u32>,
    /// It has wires.
    pub has_wires: bool,
    /// The draw is that of a ghost, or of a preview in a menu.
    pub as_ghost: bool,
    pub preview: bool,
}

/// What is left to be done for a draw.
#[derive(Clone, Copy, PartialEq, Eq, Structural, Debug)]
pub struct GenericOutcome {
    /// The game draws the sprite.
    pub vanilla: bool,
    /// What the inserter holds is recorded.
    pub hand: bool,
    /// The game submits the wires, which it does no more by itself.
    pub wires: bool,
}

/// What is recorded for a draw.
pub open spec fn record_of(d: GenericDraw, frame: u64) -> Record {
    Record {
        entity: d.entity,
        pos: d.pos->0,
        dir: d.dir,
        orientation: d.reads.orientation,
        turret: d.turret,
        surface: d.surface,
        fingerprint: generic_print(d.reads, frame),
    }
}

/// What is known of an entity after its draw: what the draw tells besides, and
/// the state of an inserter's arm where its model is shown.
pub open spec fn told(s: EntityState, d: GenericDraw, shown: bool, frame: u64) -> EntityState {
    let a = match d.morph {
        Some(w) => EntityState { morph: Some(w), ..s },
        None => s,
    };
    let b = match d.at_work {
        Some(w) => EntityState { active: w, active_frame: frame, ..a },
        None => a,
    };
    let c = match d.rate {
        Some(r) => if shown && d.inserter {
            EntityState { anim_rate: r, ..b }
        } else {
            b
        },
        None => b,
    };
    match d.arm {
        Some(r) => if shown && d.inserter {
            EntityState { arm_angle: Some(r), ..c }
        } else {
            c
        },
        None => c,
    }
}

/// The draw of a building or a vehicle. Ghosts get a see-through model on top of
/// their sprite, previews and what has no model stay as they are; all else is
/// recorded, and its sprite is drawn only where its model is not shown.
pub fn generic_draw(
    e: &mut Entities,
    ghosts: &mut Vec<Ghost3d>,
    reg: &mut Registry,
    model: Option<&EntityModel>,
    d: &GenericDraw,
    frame: u64,
) -> (r: GenericOutcome)
    requires
        old(e).wf(),
        ghosts_ok(old(ghosts)@),
        old(reg).wf(),
        model matches Some(m) ==> m.parts@.len() > 0,
    ensures
        final(e).wf(),
        ghosts_ok(final(ghosts)@),
        final(reg).wf(),
        final(reg).shelf() == old(reg).shelf(),
        ({
            let plain = model is None || d.preview || d.pos is None;
            &&& plain ==> {
                &&& r == (GenericOutcome { vanilla: true, hand: false, wires: false })
                &&& *final(e) == *old(e)
                &&& *final(ghosts) == *old(ghosts)
                &&& final(reg).loads() == old(reg).loads()
            }
            &&& !plain && d.as_ghost ==> {
                &&& r == (GenericOutcome { vanilla: true, hand: false, wires: false })
                &&& *final(e) == *old(e)
                &&& ghost_views(final(ghosts)@) == with_ghost(
                    ghost_views(old(ghosts)@),
                    GhostSpec { model: model->0@, pos: d.pos->0, dir: d.dir, frame },
                )
                &&& final(reg).loads() == old(reg).loads()
            }
            &&& !plain && !d.as_ghost ==> {
                let rec = record_of(*d, frame);
                let shown = takes_over(old(e).entries@, *old(reg), model->0@, rec, frame);
                let before = known_before(old(e).entries@, rec, model->0@, frame);
                let known = final(e).entries@[d.entity];
                &&& r == (GenericOutcome {
                    vanilla: !shown,
                    hand: shown && d.inserter,
                    wires: shown && d.has_wires,
                })
                &&& *final(ghosts) == *old(ghosts)
                &&& final(e).entries@ == old(e).entries@.insert(d.entity, known)
                &&& known.state == told(
                    drawn_again(before, rec, frame),
                    *d,
                    shown,
                    frame,
                )
                &&& known.model@ == if old(e).entries@.contains_key(d.entity) {
                    old(e).entries@[d.entity].model@
                } else {
                    model->0@
                }
                &&& final(e).grid@ == grid_with(old(e).grid@, model->0.kind, d.pos->0, d.dir)
                &&& final(reg).loads() == loads_after(
                    old(e).entries@,
                    *old(reg),
                    model->0@,
                    rec,
                    frame,
                )
            }
        }),
{
    let (m, pos): (&EntityModel, MapPos) = match (model, d.pos) {
        (Some(m), Some(p)) => (m, p),
        _ => {
            return GenericOutcome { vanilla: true, hand: false, wires: false };
        },
    };
    match draw_use(true, d.as_ghost, d.preview, true) {
        DrawUse::Plain => {
            return GenericOutcome { vanilla: true, hand: false, wires: false };
        },
        DrawUse::SeeThrough => {
            record_ghost(ghosts, m, pos, d.dir, frame);
            return GenericOutcome { vanilla: true, hand: false, wires: false };
        },
        DrawUse::Recorded => {},
    }
    let rec: Record = Record {
        entity: d.entity,
        pos,
        dir: d.dir,
        orientation: d.reads.orientation,
        turret: d.turret,
        surface: d.surface,
        fingerprint: generic_fingerprint(&d.reads, frame),
    };
    let shown: bool = record(e, reg, m, &rec, frame);
    let ghost after = *e;
    match d.morph {
        Some(w) => set_morph(e, d.entity, w),
        None => {},
    }
    match d.at_work {
        Some(w) => set_active(e, d.entity, w, frame),
        None => {},
    }
    if shown && d.inserter {
        match d.rate {
            Some(r) => set_anim_rate(e, d.entity, r),
            None => {},
        }
        match d.arm {
            Some(a) => set_arm_angle(e, d.entity, a),
            None => {},
        }
    }
    assert(e.entries@ =~= old(e).entries@.insert(d.entity, e.entries@[d.entity]));
    GenericOutcome { vanilla: !shown, hand: shown && d.inserter, wires: shown && d.has_wires }
}

/// What is recorded of a turret: it works while it turns.
pub open spec fn turret_record(entity: u64, pos: MapPos, orientation: u32, surface: u64) -> Record {
    Record {
        orientation: Some(orientation),
        surface,
        fingerprint: orientation as u64,
        ..Record::placed(entity, pos)
    }
}

/// The draw of a turret, like that of a building. The result says whether the
/// game draws the sprite. Ghosts of turrets face north.
pub fn turret_draw_common(
    e: &mut Entities,
    ghosts: &mut Vec<Ghost3d>,
    reg: &mut Registry,
    model: Option<&EntityModel>,
    entity: u64,
    pos: Option<MapPos>,
    orientation: u32,
    surface: u64,
    as_ghost: bool,
    preview: bool,
    frame: u64,
) -> (vanilla: bool)
    requires
        old(e).wf(),
        ghosts_ok(old(ghosts)@),
        old(reg).wf(),
        model matches Some(m) ==> m.parts@.len() > 0,
    ensures
        final(e).wf(),
        ghosts_ok(final(ghosts)@),
        final(reg).wf(),
        final(reg).shelf() == old(reg).shelf(),
        ({
            let plain = model is None || preview || pos is None;
            &&& plain ==> vanilla && *final(e) == *old(e) && *final(ghosts) == *old(ghosts)
                && final(reg).loads() == old(reg).loads()
            &&& !plain && as_ghost ==> {
                &&& vanilla
                &&& *final(e) == *old(e)
                &&& ghost_views(final(ghosts)@) == with_ghost(
                    ghost_views(old(ghosts)@),
                    GhostSpec { model: model->0@, pos: pos->0, dir: 0, frame },
                )
                &&& final(reg).loads() == old(reg).loads()
            }
            &&& !plain && !as_ghost ==> {
                let rec = turret_record(entity, pos->0, orientation, surface);
                let before = known_before(old(e).entries@, rec, model->0@, frame);
                let known = final(e).entries@[entity];
                &&& vanilla == !takes_over(old(e).entries@, *old(reg), model->0@, rec, frame)
                &&& *final(ghosts) == *old(ghosts)
                &&& final(e).entries@ == old(e).entries@.insert(entity, known)
                &&& known.state == drawn_again(before, rec, frame)
                &&& known.model@ == if old(e).entries@.contains_key(entity) {
                    old(e).entries@[entity].model@
                } else {
                    model->0@
                }
                &&& final(e).grid@ == grid_with(old(e).grid@, model->0.kind, pos->0, 0)
                &&& final(reg).loads() == loads_after(
                    old(e).entries@,
                    *old(reg),
                    model->0@,
                    rec,
                    frame,
                )
            }
        }),
{
    let (m, p): (&EntityModel, MapPos) = match (model, pos) {
        (Some(m), Some(p)) => (m, p),
        _ => {
            return true;
        },
    };
    match draw_use(true, as_ghost, preview, true) {
        DrawUse::Plain => true,
        DrawUse::SeeThrough => {
            record_ghost(ghosts, m, p, 0, frame);
            true
        },
        DrawUse::Recorded => {
            let mut rec: Record = Record::at(entity, p);
            rec.orientation = Some(orientation);
            rec.surface = surface;
            rec.fingerprint = orientation as u64;
            !record(e, reg, m, &rec, frame)
        },
    }
}

/// The draw of a rocket in its silo. Where it is recorded, the game draws the
/// rest of it without the rocket's own sprites; the result says so.
pub fn hooked_rocket_draw(
    e: &mut Entities,
    reg: &mut Registry,
    model: Option<&EntityModel>,
    entity: u64,
    pos: Option<MapPos>,
    surface: u64,
    as_ghost: bool,
    preview: bool,
    frame: u64,
) -> (recorded: bool)
    requires
        old(e).wf(),
        old(reg).wf(),
        model matches Some(m) ==> m.parts@.len() > 0,
    ensures
        final(e).wf(),
        final(reg).wf(),
        final(reg).shelf() == old(reg).shelf(),
        recorded == (model is Some && !as_ghost && !preview && pos is Some),
        !recorded ==> *final(e) == *old(e) && final(reg).loads() == old(reg).loads(),
        recorded ==> {
            let rec = Record { surface, ..Record::placed(entity, pos->0) };
            let before = known_before(old(e).entries@, rec, model->0@, frame);
            let known = final(e).entries@[entity];
            &&& final(e).entries@ == old(e).entries@.insert(entity, known)
            &&& known.state == (EntityState {
                rocket: Some(0),
                ..drawn_again(before, rec, frame)
            })
            &&& known.model@ == if old(e).entries@.contains_key(entity) {
                old(e).entries@[entity].model@
            } else {
                model->0@
            }
            &&& final(e).grid@ == grid_with(old(e).grid@, model->0.kind, pos->0, 0)
            &&& final(reg).loads() == loads_after(
                old(e).entries@,
                *old(reg),
                model->0@,
                rec,
                frame,
            )
        },
{
    let (m, p): (&EntityModel, MapPos) = match (model, pos) {
        (Some(m), Some(p)) => (m, p),
        _ => {
            return false;
        },
    };
    if as_ghost || preview {
        return false;
    }
    let mut rec: Record = Record::at(entity, p);
    rec.surface = surface;
    let shown: bool = record(e, reg, m, &rec, frame);
    set_rocket(e, entity, 0);
    assert(e.entries@ =~= old(e).entries@.insert(entity, e.entries@[entity]));
    true
}

/// Takes note of the preview at the build cursor: a see-through model on the
/// grid, in the direction that the cursor has.
pub fn hooked_draw_e2b(
    ghosts: &mut Vec<Ghost3d>,
    mem: &Memory,
    model: Option<&EntityModel>,
    pos: MapPos,
    view: u64,
    preview: bool,
    frame: u64,
)
    requires
        ghosts_ok(old(ghosts)@),
        mem.wf(),
        model matches Some(m) ==> m.parts@.len() > 0,
        i32::MIN + 128 <= pos.x <= i32::MAX - 128,
        i32::MIN + 128 <= pos.y <= i32::MAX - 128,
    ensures
        ghosts_ok(final(ghosts)@),
        model is None || preview ==> *final(ghosts) == *old(ghosts),
        model is Some && !preview ==> {
            let odd = odd_tiles(model->0.tiles);
            ghost_views(final(ghosts)@) == with_ghost(
                ghost_views(old(ghosts)@),
                GhostSpec {
                    model: model->0@,
                    pos: MapPos {
                        x: snapped(pos.x as int, odd) as i32,
                        y: snapped(pos.y as int, odd) as i32,
                    },
                    dir: cursor_dir_of(*mem, view as int) as u8,
                    frame,
                },
            )
        },
{
    if preview {
        return;
    }
    match model {
        Some(m) => {
            let x: i64 = snap(pos.x, m.tiles);
            let y: i64 = snap(pos.y, m.tiles);
            proof {
                lemma_snap(pos.x as int, odd_tiles(m.tiles));
                lemma_snap(pos.y as int, odd_tiles(m.tiles));
            }
            record_ghost(ghosts, m, MapPos { x: x as i32, y: y as i32 }, cursor_dir(mem, view), frame);
        },
        None => {},
    }
}

/// A preview in a menu, what has no model and what has no place stay as the game draws
/// them; a ghost gets a see-through model besides; everything else is recorded.
pub proof fn lemma_uses_of_draws(
    has_model: bool,
    ghost: bool,
    preview: bool,
    has_pos: bool,
    entity: u64,
    pos: u64,
    a: DrawUse,
    b: DrawUse,
)
    requires
        call_ensures(draw_use, (has_model, ghost, preview, has_pos), a),
        call_ensures(record_current, (preview, entity, has_model, pos, ghost), b),
    ensures
        a == DrawUse::Recorded <==> has_model && has_pos && !preview && !ghost,
        a == DrawUse::SeeThrough <==> has_model && has_pos && !preview && ghost,
        b == DrawUse::Recorded <==> has_model && entity != 0 && pos != 0 && !preview && !ghost,
        b == DrawUse::SeeThrough <==> has_model && entity != 0 && pos != 0 && !preview && ghost,
{
}

/// What shows that a building or a vehicle works: its place and orientation where it
/// has an orientation, how far it is open for a gate, how far its arm has come for an
/// inserter, and every draw where being drawn is work.
pub proof fn lemma_signs_of_work(d: &DrawReads, frame: u64, r: u64)
    requires
        call_ensures(generic_fingerprint, (d, frame), r),
    ensures
        d.orientation matches Some(o) ==> r == (((d.x as u64) << 32) ^ (d.y as u64)) ^ ((o as u64) << 16),
        d.orientation is None ==> {
            &&& d.gate matches Some(g) ==> r == g
            &&& d.gate is None && d.progress is Some ==> r == d.progress->0
            &&& d.gate is None && d.progress is None && d.anim_on_draw ==> r == frame
            &&& d.gate is None && d.progress is None && !d.anim_on_draw ==> r == 0
        },
{
}

/// A place snaps to the nearest spot of its grid: of what is an odd number of tiles
/// wide, the middles of tiles, otherwise their corners. A width counts as the number
/// of tiles that it is nearest to.
pub proof fn lemma_snaps_to_the_nearest(v: i32, tiles: u32, r: i64, k: int)
    requires
        call_ensures(snap, (v, tiles), r),
    ensures
        ({
            let odd = (tiles + 500) / 1000 % 2 == 1;
            let other: int = if odd {
                256 * k + 128
            } else {
                256 * k
            };
            let off = if r < v {
                v - r
            } else {
                r - v
            };
            let away = if other < v {
                v - other
            } else {
                other - v
            };
            &&& odd ==> r % 256 == 128
            &&& !odd ==> r % 256 == 0
            &&& off <= away
        }),
{
    lemma_snap(v as int, odd_tiles(tiles));
}

/// What a draw tells besides: how far a gate has sunk and whether a machine is at work,
/// always; the pace and the angle of an arm, of an inserter whose model is shown.
pub proof fn lemma_what_a_draw_tells(s: EntityState, d: GenericDraw, shown: bool, frame: u64)
    ensures
        ({
            let t = told(s, d, shown, frame);
            let arm = shown && d.inserter;
            &&& t.morph == if d.morph is Some {
                d.morph
            } else {
                s.morph
            }
            &&& d.at_work matches Some(w) ==> t.active == w && t.active_frame == frame
            &&& d.at_work is None ==> t.active == s.active && t.active_frame == s.active_frame
            &&& arm && d.rate is Some ==> t.anim_rate == d.rate->0
            &&& !arm || d.rate is None ==> t.anim_rate == s.anim_rate
            &&& arm && d.arm is Some ==> t.arm_angle == d.arm
            &&& !arm || d.arm is None ==> t.arm_angle == s.arm_angle
            &&& t.pos == s.pos && t.dir == s.dir && t.orientation == s.orientation && t.turret == s.turret
                && t.surface == s.surface && t.fingerprint == s.fingerprint && t.last_change == s.last_change
                && t.first_seen == s.first_seen && t.is_player == s.is_player && t.rocket == s.rocket
        }),
{
}

/// A draw is recorded under the entity, with all that was read of it.
pub proof fn lemma_what_is_recorded(d: GenericDraw, frame: u64)
    requires
        d.pos is Some,
    ensures
        ({
            let r = record_of(d, frame);
            &&& r.entity == d.entity && r.pos == d.pos->0 && r.dir == d.dir && r.turret == d.turret && r.surface
                == d.surface && r.orientation == d.reads.orientation
            &&& r.fingerprint == generic_print(d.reads, frame)
        }),
{
}

/// The direction of what is being built is that of the view, unless another one is set
/// over it; it is one of sixteen, and north where it cannot be read.
pub proof fn lemma_direction_of_the_cursor(mem: &Memory, view: u64, r: u8)
    requires
        mem.wf(),
        call_ensures(cursor_dir, (mem, view), r),
    ensures
        ({
            let a = word_at(*mem, view + 0x30) as int;
            let b = word_at(*mem, a + 0x1C0) as int;
            let set = number_at(*mem, b + 0x59, 1) != 0;
            let chain = mem.can_read(view + 0x30, 8) && mem.can_read(a + 0x1C0, 8) && mem.can_read(b + 0x59, 1);
            &&& !chain ==> r == 0
            &&& chain && set && mem.can_read(b + 0x58, 1) ==> r == number_at(*mem, b + 0x58, 1) % 16
            &&& chain && !set && mem.can_read(view + 0x8, 1) ==> r == number_at(*mem, view + 0x8, 1) % 16
            &&& chain && set && !mem.can_read(b + 0x58, 1) ==> r == 0
            &&& chain && !set && !mem.can_read(view + 0x8, 1) ==> r == 0
        }),
{
}

/// A class is asked by its own getters, and by those of all entities for its direction
/// and orientation where it has none of its own.
pub proof fn lemma_getters_of_a_class(symbols: &SymbolMap, targets: &Vec<DrawTarget>, g: &Getters, r: Vec<GenericHook>, i: int)
    requires
        symbols.wf(),
        call_ensures(generic_hooks, (symbols, targets, g), r),
        0 <= i < targets@.len(),
        i < 44,
    ensures
        ({
            let t = targets@[i];
            let h = r@[i];
            &&& i < r@.len()
            &&& h.oriented == t.oriented && h.anim_on_draw == t.anim_on_draw && h.wire_off == t.wire_off
                && h.gate_off == t.gate_off
            &&& h.dir_addr == match symbol_address(*symbols, t.dir_sym@) {
                Some(a) => a,
                None => g.base_dir,
            }
            &&& h.orient_addr == match symbol_address(*symbols, t.orient_sym@) {
                Some(a) => a,
                None => g.base_orient,
            }
            &&& h.turret_addr == match symbol_address(*symbols, t.turret_sym@) {
                Some(a) => a,
                None => 0,
            }
            &&& h.progress_addr == match symbol_address(*symbols, t.progress_sym@) {
                Some(a) => a,
                None => 0,
            }
            &&& h.activity_addr == match symbol_address(*symbols, t.activity_sym@) {
                Some(a) => a,
                None => 0,
            }
        }),
{
}

/// A turret is recorded with its aim as its orientation, and works while it aims.
pub proof fn lemma_aim_of_a_turret(entity: u64, pos: MapPos, orientation: u32, surface: u64)
    ensures
        ({
            let r = turret_record(entity, pos, orientation, surface);
            &&& r.entity == entity && r.pos == pos && r.surface == surface && r.dir == 0
            &&& r.orientation == Some(orientation) && r.fingerprint == orientation && r.turret is None
        }),
{
}

} // verus!
