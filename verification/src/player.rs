//! The player: what the draw of a character tells, and when it mines or shoots.

use crate::entities::{
    drawn_again, grid_with, known_before, loads_after, record, set_player_color, takes_over,
    Entities, EntityState, Record,
};
use crate::getters::{is_unit_single, unit_single};
use crate::hooks::MapPos;
use crate::models::{EntityModel, Registry};
use crate::wires::Color;
use vstd::prelude::*;

verus! {

/// What is known of the players as a whole.
#[derive(Clone, Copy, PartialEq, Eq, Structural, Debug)]
pub struct Players {
    /// The last frame in which the player mined; 0 for none.
    mining: u64,
}

impl Players {
    pub closed spec fn mined(self) -> u64 {
        self.mining
    }

    pub fn new() -> (r: Players)
        ensures
            r.mined() == 0,
    {
        Players { mining: 0 }
    }
}

/// The last frame in which the player mined; 0 for none.
pub fn mining_frame(p: &Players) -> (r: u64)
    ensures
        r == p.mined(),
{
    p.mining
}

/// The player mines.
pub fn hooked_perform_mining(p: &mut Players, frame: u64)
    ensures
        final(p).mined() == frame,
{
    p.mining = frame;
}

/// Whether a character shot: the game says so, and which.
pub fn hooked_shoot(fired: u8, character: u64) -> (r: bool)
    ensures
        r == (fired != 0 && character != 0),
{
    fired != 0 && character != 0
}

/// All parts of a colour are from 0 to 1.
pub open spec fn proper_color(c: Color) -> bool {
    unit_single(c.r) && unit_single(c.g) && unit_single(c.b) && unit_single(c.a)
}

/// The colour of a player, where what the getter left is one.
pub fn player_color(buf: Color) -> (r: Option<Color>)
    ensures
        r == if proper_color(buf) {
            Some(buf)
        } else {
            None
        },
{
    if is_unit_single(buf.r) && is_unit_single(buf.g) && is_unit_single(buf.b) && is_unit_single(
        buf.a,
    ) {
        Some(buf)
    } else {
        None
    }
}

/// What is recorded of a character. It always moves a little, so that every draw
/// counts as work. The copy of a character that runs ahead of a server stands on
/// a surface of its own, which counts as not known.
pub open spec fn character_record(
    entity: u64,
    pos: MapPos,
    dir: u8,
    latency: bool,
    surface: u64,
    frame: u64,
) -> Record {
    Record {
        dir,
        surface: if latency {
            0
        } else {
            surface
        },
        fingerprint: frame,
        ..Record::placed(entity, pos)
    }
}

/// The draw of a character. The result says whether its model takes the place of
/// its sprite.
pub fn char_draw_inner(
    e: &mut Entities,
    reg: &mut Registry,
    model: Option<&EntityModel>,
    entity: u64,
    pos: Option<MapPos>,
    dir: u8,
    latency: bool,
    surface: u64,
    color: Option<Color>,
    as_ghost: bool,
    preview: bool,
    frame: u64,
) -> (shown: bool)
    requires
        old(e).wf(),
        old(reg).wf(),
        model matches Some(m) ==> m.parts@.len() > 0,
    ensures
        final(e).wf(),
        final(reg).wf(),
        final(reg).shelf() == old(reg).shelf(),
        ({
            let plain = model is None || as_ghost || preview || pos is None;
            &&& plain ==> !shown && *final(e) == *old(e) && final(reg).loads() == old(reg).loads()
            &&& !plain ==> {
                let rec = character_record(entity, pos->0, dir, latency, surface, frame);
                let before = known_before(old(e).entries@, rec, model->0@, frame);
                let after = drawn_again(before, rec, frame);
                let known = final(e).entries@[entity];
                &&& shown == takes_over(old(e).entries@, *old(reg), model->0@, rec, frame)
                &&& final(e).entries@ == old(e).entries@.insert(entity, known)
                &&& known.state == match color {
                    Some(c) => EntityState { player_color: c, ..after },
                    None => after,
                }
                &&& known.model@ == if old(e).entries@.contains_key(entity) {
                    old(e).entries@[entity].model@
                } else {
                    model->0@
                }
                &&& final(e).grid@ == grid_with(old(e).grid@, model->0.kind, pos->0, dir)
                &&& final(reg).loads() == loads_after(
                    old(e).entries@,
                    *old(reg),
                    model->0@,
                    rec,
                    frame,
                )
            }
        }),
{
    let (m, p): (&EntityModel, MapPos) = match (model, pos) {
        (Some(m), Some(p)) => (m, p),
        _ => {
            return false;
        },
    };
    if as_ghost || preview {
        return false;
    }
    let mut rec: Record = Record::at(entity, p);
    rec.dir = dir;
    rec.surface = if latency {
        0
    } else {
        surface
    };
    rec.fingerprint = frame;
    let shown: bool = record(e, reg, m, &rec, frame);
    match color {
        Some(c) => set_player_color(e, entity, c),
        None => {},
    }
    assert(e.entries@ =~= old(e).entries@.insert(entity, e.entries@[entity]));
    shown
}

/// A character is recorded with its place and direction, and every draw of it counts
/// as work. One that runs ahead of a server is on no known surface.
pub proof fn lemma_character_is_recorded(entity: u64, pos: MapPos, dir: u8, latency: bool, surface: u64, frame: u64)
    ensures
        ({
            let r = character_record(entity, pos, dir, latency, surface, frame);
            &&& r.entity == entity && r.pos == pos && r.dir == dir && r.fingerprint == frame
            &&& latency ==> r.surface == 0
            &&& !latency ==> r.surface == surface
            &&& r.orientation is None && r.turret is None
        }),
{
}

/// A colour counts where each of its parts is a number from 0 to 1.
pub proof fn lemma_colors_of_players(buf: Color, r: Option<Color>)
    requires
        call_ensures(player_color, (buf,), r),
    ensures
        ({
            let unit = |b: u32| b <= 0x3F80_0000 || b == 0x8000_0000;
            &&& r is Some <==> unit(buf.r) && unit(buf.g) && unit(buf.b) && unit(buf.a)
            &&& r matches Some(c) ==> c == buf
        }),
{
}

} // verus!
