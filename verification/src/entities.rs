//! Every entity that is drawn as a model. Entities are drawn only now and then,
//! so what is known of one stays until it is gone.

use crate::grid::{
    belt_kind, cell_at, cell_of, joint_at, splitter_at, splitter_cells, Cell, CellSet, Grid, Joint,
};
use crate::hooks::MapPos;
use crate::idmap::IdMap;
use crate::item_draws::{is_within, within, Items};
use crate::models::{
    all_ready, copy_model, first_missing, is_player_key, model_opt, player_key, player_key_of,
    ready, request, ConnKind, EntityModel, EntityModelSpec, Loads, Part, Registry, YawSource,
};
use crate::text::{contains, has_prefix, has_text, str_eq};
use crate::view_cull::ViewCull;
use crate::wires::{
    clear_wires_near, expire_wires, spans_ok, stays, touches, Color, WireDraw, ONE,
};
use vstd::prelude::*;

verus! {

/// How an entity moved between the last two positions that are known: so many
/// 256ths of a tile in so many frames.
#[derive(Clone, Copy, PartialEq, Eq, Structural, Debug)]
pub struct Motion {
    pub dx: i64,
    pub dy: i64,
    pub frames: u64,
}

/// What is known of an entity.
#[derive(Clone, Copy, PartialEq, Eq, Structural, Debug)]
pub struct EntityState {
    pub pos: MapPos,
    /// Its direction, of sixteen.
    pub dir: u8,
    /// Its orientation and that of its turret, as the bits of 32-bit floats.
    pub orientation: Option<u32>,
    pub turret: Option<u32>,
    /// The position of the last frame.
    pub prev: MapPos,
    /// The surface it stands on; 0 where that is not known.
    pub surface: u64,
    /// How high a rocket has flown, as the bits of a 32-bit float.
    pub rocket: Option<u32>,
    /// Where it was first seen.
    pub first: MapPos,
    /// Changes while the entity works.
    pub fingerprint: u64,
    pub first_seen: u64,
    pub last_change: u64,
    /// How fast its animation runs, as the bits of a 32-bit float.
    pub anim_rate: u32,
    /// The angle of an inserter's arm, as the bits of a 32-bit float.
    pub arm_angle: Option<u32>,
    pub active: bool,
    pub active_frame: u64,
    pub motion: Motion,
    /// The frame in which the position last changed.
    pub pos_frame: u64,
    /// The frames between the last two positions.
    pub interval: u64,
    /// How far a gate is open, as the bits of a 32-bit float.
    pub morph: Option<u32>,
    pub is_player: bool,
    pub player_state: u8,
    pub player_color: Color,
    pub last_move: u64,
    pub last_shot: u64,
}

/// An entity and its model.
#[derive(Debug)]
pub struct Entry {
    pub model: EntityModel,
    pub state: EntityState,
}

/// The entities, and the tiles on which they connect.
pub struct Entities {
    pub entries: IdMap<Entry>,
    pub grid: Grid,
}

impl Entities {
    /// Every entity has a model with a part.
    pub open spec fn wf(&self) -> bool {
        &&& self.entries.wf()
        &&& self.grid.wf()
        &&& forall|k: u64| #[trigger]
            self.entries@.contains_key(k) ==> self.entries@[k].model.parts@.len() > 0
    }

    pub fn new() -> (r: Entities)
        ensures
            r.wf(),
            r.entries@ == Map::<u64, Entry>::empty(),
            r.grid@ == Map::<Cell, Joint>::empty(),
    {
        Entities { entries: IdMap::new(), grid: Grid::new() }
    }
}

/// What a draw tells of an entity.
#[derive(Clone, Copy, PartialEq, Eq, Structural, Debug)]
pub struct Record {
    pub entity: u64,
    pub pos: MapPos,
    pub dir: u8,
    pub orientation: Option<u32>,
    pub turret: Option<u32>,
    pub surface: u64,
    pub fingerprint: u64,
}

impl Record {
    /// An entity of which only the position is known.
    pub open spec fn placed(entity: u64, pos: MapPos) -> Record {
        Record {
            entity,
            pos,
            dir: 0,
            orientation: None,
            turret: None,
            surface: 0,
            fingerprint: 0,
        }
    }

    pub fn at(entity: u64, pos: MapPos) -> (r: Record)
        ensures
            r == Record::placed(entity, pos),
    {
        Record {
            entity,
            pos,
            dir: 0,
            orientation: None,
            turret: None,
            surface: 0,
            fingerprint: 0,
        }
    }
}

/// What is known of an entity that is drawn for the first time.
pub open spec fn first_state(r: Record, is_player: bool, frame: u64) -> EntityState {
    EntityState {
        pos: r.pos,
        dir: r.dir,
        orientation: r.orientation,
        turret: r.turret,
        prev: r.pos,
        surface: r.surface,
        rocket: None,
        first: r.pos,
        fingerprint: r.fingerprint,
        first_seen: frame,
        last_change: 0,
        anim_rate: 0x3F80_0000,
        arm_angle: None,
        active: true,
        active_frame: 0,
        motion: Motion { dx: 0, dy: 0, frames: 1 },
        pos_frame: frame,
        interval: 0,
        morph: None,
        is_player,
        player_state: 0,
        player_color: Color { r: 0, g: 0, b: 0, a: 0 },
        last_move: 0,
        last_shot: 0,
    }
}

fn new_state(r: &Record, is_player: bool, frame: u64) -> (s: EntityState)
    ensures
        s == first_state(*r, is_player, frame),
{
    EntityState {
        pos: r.pos,
        dir: r.dir,
        orientation: r.orientation,
        turret: r.turret,
        prev: r.pos,
        surface: r.surface,
        rocket: None,
        first: r.pos,
        fingerprint: r.fingerprint,
        first_seen: frame,
        last_change: 0,
        anim_rate: ONE,
        arm_angle: None,
        active: true,
        active_frame: 0,
        motion: Motion { dx: 0, dy: 0, frames: 1 },
        pos_frame: frame,
        interval: 0,
        morph: None,
        is_player,
        player_state: 0,
        player_color: Color { r: 0, g: 0, b: 0, a: 0 },
        last_move: 0,
        last_shot: 0,
    }
}

/// The frames since another one, at least one.
pub open spec fn frames_since(frame: u64, since: u64) -> u64 {
    if frame <= since {
        1
    } else {
        (frame - since) as u64
    }
}

pub open spec fn magnitude(v: int) -> int {
    if v < 0 {
        -v
    } else {
        v
    }
}

/// The most frames that count between two positions.
pub const MAX_INTERVAL: u64 = 120;

/// What is known of an entity's motion once its position is known anew. What
/// moves by more than half a tile in a frame has jumped.
pub open spec fn moved(s: EntityState, to: MapPos, frame: u64) -> EntityState {
    let dx = to.x - s.pos.x;
    let dy = to.y - s.pos.y;
    let df = frames_since(frame, s.pos_frame);
    if dx == 0 && dy == 0 {
        s
    } else if magnitude(dx) + magnitude(dy) > 128 * df {
        EntityState { pos: to, motion: Motion { dx: 0, dy: 0, frames: 1 }, pos_frame: frame, ..s }
    } else {
        EntityState {
            pos: to,
            motion: Motion { dx: dx as i64, dy: dy as i64, frames: df },
            interval: if df < MAX_INTERVAL {
                df
            } else {
                MAX_INTERVAL
            },
            pos_frame: frame,
            ..s
        }
    }
}

/// What is known of an entity once it is drawn again.
pub open spec fn drawn_again(s: EntityState, r: Record, frame: u64) -> EntityState {
    let m = moved(s, r.pos, frame);
    EntityState {
        dir: r.dir,
        orientation: r.orientation,
        turret: r.turret,
        surface: if r.surface != 0 {
            r.surface
        } else {
            s.surface
        },
        fingerprint: r.fingerprint,
        last_change: if s.fingerprint != r.fingerprint {
            frame
        } else {
            s.last_change
        },
        ..m
    }
}

fn apply_record(s: &mut EntityState, r: &Record, frame: u64)
    ensures
        *final(s) == drawn_again(*old(s), *r, frame),
{
    if s.fingerprint != r.fingerprint {
        s.fingerprint = r.fingerprint;
        s.last_change = frame;
    }
    let dx: i64 = r.pos.x as i64 - s.pos.x as i64;
    let dy: i64 = r.pos.y as i64 - s.pos.y as i64;
    if dx != 0 || dy != 0 {
        let df: u64 = if frame <= s.pos_frame {
            1
        } else {
            frame - s.pos_frame
        };
        let ax: u64 = if dx < 0 {
            (-dx) as u64
        } else {
            dx as u64
        };
        let ay: u64 = if dy < 0 {
            (-dy) as u64
        } else {
            dy as u64
        };
        if (ax + ay) as u128 > 128 * (df as u128) {
            s.motion = Motion { dx: 0, dy: 0, frames: 1 };
        } else {
            s.motion = Motion { dx, dy, frames: df };
            s.interval = if df < MAX_INTERVAL {
                df
            } else {
                MAX_INTERVAL
            };
        }
        s.pos_frame = frame;
    }
    s.pos = r.pos;
    s.dir = r.dir;
    s.orientation = r.orientation;
    s.turret = r.turret;
    if r.surface != 0 {
        s.surface = r.surface;
    }
}

/// The tiles after an entity that connects was drawn.
pub open spec fn grid_with(
    g: Map<Cell, Joint>,
    kind: ConnKind,
    pos: MapPos,
    dir: u8,
) -> Map<Cell, Joint> {
    if kind == ConnKind::Plain {
        g
    } else if kind == ConnKind::Splitter {
        g.insert(splitter_at(pos, dir).0, Joint { kind, dir }).insert(
            splitter_at(pos, dir).1,
            Joint { kind, dir },
        )
    } else {
        g.insert(cell_of(pos), Joint { kind, dir })
    }
}

/// The tiles after an entity that connects is gone.
pub open spec fn grid_without(
    g: Map<Cell, Joint>,
    kind: ConnKind,
    pos: MapPos,
    dir: u8,
) -> Map<Cell, Joint> {
    if kind == ConnKind::Plain {
        g
    } else if kind == ConnKind::Splitter {
        g.remove(splitter_at(pos, dir).0).remove(splitter_at(pos, dir).1)
    } else {
        g.remove(cell_of(pos))
    }
}

fn join_grid(g: &mut Grid, kind: ConnKind, pos: MapPos, dir: u8)
    requires
        old(g).wf(),
    ensures
        final(g).wf(),
        final(g)@ == grid_with(old(g)@, kind, pos, dir),
{
    match kind {
        ConnKind::Plain => {},
        ConnKind::Splitter => {
            let tiles: (Cell, Cell) = splitter_cells(pos, dir);
            g.insert(tiles.0, Joint { kind, dir });
            g.insert(tiles.1, Joint { kind, dir });
        },
        _ => {
            g.insert(cell_at(pos), Joint { kind, dir });
        },
    }
}

fn leave_grid(g: &mut Grid, kind: ConnKind, pos: MapPos, dir: u8)
    requires
        old(g).wf(),
    ensures
        final(g).wf(),
        final(g)@ == grid_without(old(g)@, kind, pos, dir),
{
    match kind {
        ConnKind::Plain => {},
        ConnKind::Splitter => {
            let tiles: (Cell, Cell) = splitter_cells(pos, dir);
            g.remove(tiles.0);
            g.remove(tiles.1);
        },
        _ => {
            g.remove(cell_at(pos));
        },
    }
}

/// What is known of an entity before a draw: of a new one, what the draw tells.
pub open spec fn known_before(m: Map<u64, Entry>, r: Record, model: EntityModelSpec, frame: u64) -> EntityState {
    if m.contains_key(r.entity) {
        m[r.entity].state
    } else {
        first_state(r, has_prefix(model.parts[0].key, "ENTITIES/PLAYER/"@), frame)
    }
}

/// The entity has been known for more than a frame.
pub open spec fn established(s: EntityState, frame: u64) -> bool {
    frame > s.first_seen + 1
}

/// All parts of a model are loaded.
pub open spec fn loaded(reg: Registry, model: EntityModelSpec) -> bool {
    forall|i: int|
        0 <= i < model.parts.len() ==> ready(reg.loads(), (#[trigger] model.parts[i]).key) is Some
}

/// The model of an entity takes the place of its sprite: the entity is not new, and
/// all parts of the model are loaded.
pub open spec fn takes_over(
    m: Map<u64, Entry>,
    reg: Registry,
    model: EntityModelSpec,
    r: Record,
    frame: u64,
) -> bool {
    established(known_before(m, r, model, frame), frame) && loaded(reg, model)
}

/// The models asked for after a draw was recorded: the first part that is
/// missing, where the model could take the place of the sprite.
pub open spec fn loads_after(
    m: Map<u64, Entry>,
    reg: Registry,
    model: EntityModelSpec,
    r: Record,
    frame: u64,
) -> Loads {
    if established(known_before(m, r, model, frame), frame) {
        match first_missing(reg.loads(), model.parts) {
            Some(i) => request(reg.loads(), model.parts[i].key),
            None => reg.loads(),
        }
    } else {
        reg.loads()
    }
}

/// Takes note of an entity that is being drawn. The result says whether its
/// model takes the place of its sprite: the sprite of an entity that is new
/// stays, since it may be the preview of one that is being built.
pub fn record(
    e: &mut Entities,
    reg: &mut Registry,
    model: &EntityModel,
    r: &Record,
    frame: u64,
) -> (shown: bool)
    requires
        old(e).wf(),
        old(reg).wf(),
        model.parts@.len() > 0,
    ensures
        final(e).wf(),
        final(reg).wf(),
        final(reg).shelf() == old(reg).shelf(),
        ({
            let before = known_before(old(e).entries@, *r, model@, frame);
            let after = drawn_again(before, *r, frame);
            let known = final(e).entries@[r.entity];
            &&& final(e).entries@ == old(e).entries@.insert(r.entity, known)
            &&& known.state == after
            &&& known.model@ == if old(e).entries@.contains_key(r.entity) {
                old(e).entries@[r.entity].model@
            } else {
                model@
            }
            &&& final(e).grid@ == grid_with(old(e).grid@, model.kind, r.pos, r.dir)
            &&& shown == takes_over(old(e).entries@, *old(reg), model@, *r, frame)
            &&& final(reg).loads() == loads_after(old(e).entries@, *old(reg), model@, *r, frame)
        }),
{
    let ghost before = known_before(e.entries@, *r, model@, frame);
    assert(model@.parts[0].key == model.parts@[0].key@);
    if !e.entries.contains(r.entity) {
        let is_player: bool = is_player_key(model.parts[0].key.as_str());
        let m: EntityModel = copy_model(model);
        assert(m@.parts.len() == m.parts@.len());
        assert(model@.parts.len() == model.parts@.len());
        e.entries.insert(r.entity, Entry { model: m, state: new_state(r, is_player, frame) });
    }
    let ghost mid = e.entries@;
    let mut first: bool = true;
    match e.entries.find(r.entity) {
        Some(i) => {
            let entry: &mut Entry = e.entries.value_mut(i);
            first = entry.state.first_seen == u64::MAX || frame <= entry.state.first_seen + 1;
            apply_record(&mut entry.state, r, frame);
        },
        None => {},
    }
    assert(e.entries@ =~= old(e).entries@.insert(r.entity, e.entries@[r.entity]));
    join_grid(&mut e.grid, model.kind, r.pos, r.dir);
    !first && all_ready(reg, model)
}

/// Takes note of an item that lies on the ground: from then on it is an entity
/// like any other.
pub fn adopt_item(
    e: &mut Entities,
    reg: &mut Registry,
    entity: u64,
    key: String,
    pos: MapPos,
    surface: u64,
    size: u32,
    frame: u64,
)
    requires
        old(e).wf(),
        old(reg).wf(),
    ensures
        final(e).wf(),
        final(reg).wf(),
        final(reg).shelf() == old(reg).shelf(),
        final(e).grid@ == old(e).grid@,
        ({
            let r = Record { surface, ..Record::placed(entity, pos) };
            let known = final(e).entries@[entity];
            let before = if old(e).entries@.contains_key(entity) {
                old(e).entries@[entity].state
            } else {
                first_state(r, has_prefix(key@, "ENTITIES/PLAYER/"@), frame)
            };
            &&& final(e).entries@ == old(e).entries@.insert(entity, known)
            &&& known.state == drawn_again(before, r, frame)
            &&& old(e).entries@.contains_key(entity) ==> known.model@ == old(
                e,
            ).entries@[entity].model@
            &&& !old(e).entries@.contains_key(entity) ==> {
                &&& known.model.parts@.len() == 1
                &&& known.model.parts@[0].key@ == key@
                &&& known.model.parts@[0].yaw == YawSource::Fixed
                &&& known.model.tiles == size
                &&& known.model.kind == ConnKind::Plain
            }
            &&& final(reg).loads() == if established(before, frame) && ready(
                old(reg).loads(),
                key@,
            ) is None {
                request(old(reg).loads(), key@)
            } else {
                old(reg).loads()
            }
        }),
{
    let ghost name = key@;
    let mut parts: Vec<Part> = Vec::new();
    parts.push(Part { key, yaw: YawSource::Fixed });
    let model: EntityModel = EntityModel { parts, tiles: size, kind: ConnKind::Plain };
    let mut r: Record = Record::at(entity, pos);
    r.surface = surface;
    assert(model@.parts.len() == 1);
    assert(model@.parts[0].key == name);
    proof {
        reveal_with_fuel(first_missing, 2);
    }
    let shown: bool = record(e, reg, &model, &r, frame);
    proof {
        let known = e.entries@[entity].model;
        assert(known@.parts.len() == known.parts@.len());
        if !old(e).entries@.contains_key(entity) {
            assert(known@.parts[0] == known.parts@[0]@);
        }
    }
}

/// An entity is gone: nothing of it stays.
pub fn remove(
    e: &mut Entities,
    items: &mut Items,
    seen: &mut IdMap<u64>,
    wires: &mut Vec<WireDraw>,
    entity: u64,
)
    requires
        old(e).wf(),
        old(items).wf(),
        old(seen).wf(),
        spans_ok(old(wires)@),
    ensures
        final(e).wf(),
        final(items).wf(),
        final(seen).wf(),
        spans_ok(final(wires)@),
        final(items).staged == old(items).staged,
        final(items).live == old(items).live,
        final(items).live_frame == old(items).live_frame,
        final(items).belts@ == old(items).belts@.remove(entity),
        final(seen)@ == old(seen)@.remove(entity),
        final(e).entries@ == old(e).entries@.remove(entity),
        !old(e).entries@.contains_key(entity) ==> final(e).grid@ == old(e).grid@ && final(wires)@
            == old(wires)@,
        old(e).entries@.contains_key(entity) ==> {
            let g = old(e).entries@[entity];
            &&& final(e).grid@ == grid_without(
                old(e).grid@,
                g.model.kind,
                g.state.pos,
                g.state.dir,
            )
            &&& final(wires)@ == old(wires)@.filter(|w: WireDraw| !touches(w, g.state.pos))
        },
{
    let belt = items.belts.remove(entity);
    let time = seen.remove(entity);
    match e.entries.remove(entity) {
        Some(gone) => {
            leave_grid(&mut e.grid, gone.model.kind, gone.state.pos, gone.state.dir);
            clear_wires_near(wires, gone.state.pos);
        },
        None => {},
    }
}

/// A new entity that is drawn and then gone leaves no trace: the entities are
/// what they were, and so are the tiles, but for those that it stood on.
pub proof fn lemma_gone_without_trace(
    m: Map<u64, Entry>,
    g: Map<Cell, Joint>,
    r: Record,
    known: Entry,
    kind: ConnKind,
    c: Cell,
)
    requires
        !m.contains_key(r.entity),
        kind == ConnKind::Splitter ==> c != splitter_at(r.pos, r.dir).0 && c != splitter_at(
            r.pos,
            r.dir,
        ).1,
        kind != ConnKind::Splitter ==> c != cell_of(r.pos),
    ensures
        m.insert(r.entity, known).remove(r.entity) == m,
        joint_at(grid_without(grid_with(g, kind, r.pos, r.dir), kind, r.pos, r.dir), c) == joint_at(
            g,
            c,
        ),
{
    assert(m.insert(r.entity, known).remove(r.entity) =~= m);
}

/// What happens to entities, as far as their age goes.
pub ghost enum Event {
    /// An entity is drawn in a frame.
    Drawn(u64, u64),
    /// An entity is gone.
    Gone(u64),
}

/// The frame in which an entity was first drawn, since the start or since it was
/// last gone.
pub open spec fn first_drawn(h: Seq<Event>, entity: u64) -> Option<u64>
    decreases h.len(),
{
    if h.len() == 0 {
        None
    } else {
        let before = first_drawn(h.drop_last(), entity);
        match h.last() {
            Event::Drawn(e, frame) => if e == entity && before is None {
                Some(frame)
            } else {
                before
            },
            Event::Gone(e) => if e == entity {
                None
            } else {
                before
            },
        }
    }
}

/// The entities are those that were drawn and are not gone, and of each it is
/// known when it was first drawn.
pub open spec fn remembers(m: Map<u64, Entry>, h: Seq<Event>) -> bool {
    &&& forall|k: u64| #[trigger] m.contains_key(k) <==> first_drawn(h, k) is Some
    &&& forall|k: u64| #[trigger]
        m.contains_key(k) ==> first_drawn(h, k) == Some(m[k].state.first_seen)
}

/// Whatever is drawn, told of and removed, in any order, the entities remember when
/// each was first drawn: at the start, after a draw, after a removal, and after
/// anything else that is told of an entity.
pub proof fn lemma_age_kept(
    m: Map<u64, Entry>,
    h: Seq<Event>,
    r: Record,
    model: EntityModelSpec,
    known: Entry,
    frame: u64,
    told: EntityState,
)
    requires
        remembers(m, h),
        known.state.first_seen == drawn_again(known_before(m, r, model, frame), r, frame).first_seen,
        told.first_seen == m[r.entity].state.first_seen,
    ensures
        remembers(Map::empty(), Seq::empty()),
        remembers(m.insert(r.entity, known), h.push(Event::Drawn(r.entity, frame))),
        remembers(m.remove(r.entity), h.push(Event::Gone(r.entity))),
        remembers(with_state(m, r.entity, told), h),
{
    let e = r.entity;
    let drawn = h.push(Event::Drawn(e, frame));
    let gone = h.push(Event::Gone(e));
    assert(drawn.drop_last() =~= h);
    assert(gone.drop_last() =~= h);
    assert forall|k: u64| true implies #[trigger] first_drawn(drawn, k) == if k == e && first_drawn(
        h,
        k,
    ) is None {
        Some(frame)
    } else {
        first_drawn(h, k)
    } by {}
    assert forall|k: u64| true implies #[trigger] first_drawn(gone, k) == if k == e {
        None
    } else {
        first_drawn(h, k)
    } by {}
    let a = m.insert(e, known);
    assert forall|k: u64| #[trigger] a.contains_key(k) <==> first_drawn(drawn, k) is Some by {
        assert(m.contains_key(k) <==> first_drawn(h, k) is Some);
    }
    assert forall|k: u64| #[trigger] a.contains_key(k) implies first_drawn(drawn, k) == Some(
        a[k].state.first_seen,
    ) by {
        assert(m.contains_key(k) <==> first_drawn(h, k) is Some);
    }
    let b = m.remove(e);
    assert forall|k: u64| #[trigger] b.contains_key(k) <==> first_drawn(gone, k) is Some by {
        assert(m.contains_key(k) <==> first_drawn(h, k) is Some);
    }
    assert forall|k: u64| #[trigger] b.contains_key(k) implies first_drawn(gone, k) == Some(
        b[k].state.first_seen,
    ) by {
        assert(m.contains_key(k));
    }
    let c = with_state(m, e, told);
    assert forall|k: u64| #[trigger] c.contains_key(k) <==> first_drawn(h, k) is Some by {
        assert(m.contains_key(k) <==> first_drawn(h, k) is Some);
    }
    assert forall|k: u64| #[trigger] c.contains_key(k) implies first_drawn(h, k) == Some(
        c[k].state.first_seen,
    ) by {
        assert(m.contains_key(k));
    }
}

/// A sprite gives way to a model exactly where its entity was first drawn at least
/// two frames ago and every part of the model is loaded.
pub proof fn lemma_shown_by_age(
    m: Map<u64, Entry>,
    h: Seq<Event>,
    reg: Registry,
    r: Record,
    model: EntityModelSpec,
    frame: u64,
)
    requires
        remembers(m, h),
    ensures
        ({
            let since = first_drawn(h.push(Event::Drawn(r.entity, frame)), r.entity);
            &&& since is Some
            &&& takes_over(m, reg, model, r, frame) <==> frame > since->0 + 1 && loaded(reg, model)
        }),
{
    let drawn = h.push(Event::Drawn(r.entity, frame));
    assert(drawn.drop_last() =~= h);
    assert(m.contains_key(r.entity) <==> first_drawn(h, r.entity) is Some);
}

/// Drawing an entity twice in a frame with the same data changes nothing more.
pub proof fn lemma_record_settles(s: EntityState, r: Record, frame: u64)
    ensures
        ({
            let once = drawn_again(s, r, frame);
            drawn_again(once, r, frame) == once
        }),
        drawn_again(s, r, frame).first == s.first,
        drawn_again(s, r, frame).first_seen == s.first_seen,
        drawn_again(s, r, frame).pos == r.pos,
{
}

/// The model that an entity was registered with.
pub fn model_of(e: &Entities, entity: u64) -> (r: Option<EntityModel>)
    requires
        e.wf(),
    ensures
        model_opt(r) == if e.entries@.contains_key(entity) {
            Some(e.entries@[entity].model@)
        } else {
            None
        },
{
    match e.entries.get(entity) {
        Some(entry) => Some(copy_model(&entry.model)),
        None => None,
    }
}

/// The entities after what is known of one of them changed.
pub open spec fn with_state(m: Map<u64, Entry>, entity: u64, s: EntityState) -> Map<u64, Entry> {
    if m.contains_key(entity) {
        m.insert(entity, Entry { state: s, ..m[entity] })
    } else {
        m
    }
}

/// What is known of an entity.
pub fn state_of(e: &Entities, entity: u64) -> (r: Option<EntityState>)
    requires
        e.wf(),
    ensures
        r == if e.entries@.contains_key(entity) {
            Some(e.entries@[entity].state)
        } else {
            None
        },
{
    match e.entries.get(entity) {
        Some(entry) => Some(entry.state),
        None => None,
    }
}

fn set_state(e: &mut Entities, entity: u64, s: EntityState)
    requires
        old(e).wf(),
    ensures
        final(e).wf(),
        final(e).grid == old(e).grid,
        final(e).entries.ids() == old(e).entries.ids(),
        final(e).entries@ == with_state(old(e).entries@, entity, s),
{
    match e.entries.find(entity) {
        Some(i) => {
            let entry: &mut Entry = e.entries.value_mut(i);
            entry.state = s;
        },
        None => {},
    }
}

/// Marks an entity as the rocket of a silo.
pub fn set_rocket(e: &mut Entities, entity: u64, flight: u32)
    requires
        old(e).wf(),
    ensures
        final(e).wf(),
        final(e).grid == old(e).grid,
        final(e).entries@ == with_state(
            old(e).entries@,
            entity,
            EntityState { rocket: Some(flight), ..old(e).entries@[entity].state },
        ),
{
    match state_of(e, entity) {
        Some(s) => set_state(e, entity, EntityState { rocket: Some(flight), ..s }),
        None => {},
    }
}

/// Sets how fast the animation of an entity runs.
pub fn set_anim_rate(e: &mut Entities, entity: u64, rate: u32)
    requires
        old(e).wf(),
    ensures
        final(e).wf(),
        final(e).grid == old(e).grid,
        final(e).entries@ == with_state(
            old(e).entries@,
            entity,
            EntityState { anim_rate: rate, ..old(e).entries@[entity].state },
        ),
{
    match state_of(e, entity) {
        Some(s) => set_state(e, entity, EntityState { anim_rate: rate, ..s }),
        None => {},
    }
}

/// Sets the angle of an inserter's arm.
pub fn set_arm_angle(e: &mut Entities, entity: u64, angle: u32)
    requires
        old(e).wf(),
    ensures
        final(e).wf(),
        final(e).grid == old(e).grid,
        final(e).entries@ == with_state(
            old(e).entries@,
            entity,
            EntityState { arm_angle: Some(angle), ..old(e).entries@[entity].state },
        ),
{
    match state_of(e, entity) {
        Some(s) => set_state(e, entity, EntityState { arm_angle: Some(angle), ..s }),
        None => {},
    }
}

/// Sets the colour of a player.
pub fn set_player_color(e: &mut Entities, entity: u64, color: Color)
    requires
        old(e).wf(),
    ensures
        final(e).wf(),
        final(e).grid == old(e).grid,
        final(e).entries@ == with_state(
            old(e).entries@,
            entity,
            EntityState { player_color: color, ..old(e).entries@[entity].state },
        ),
{
    match state_of(e, entity) {
        Some(s) => set_state(e, entity, EntityState { player_color: color, ..s }),
        None => {},
    }
}

/// Sets how far a gate is open.
pub fn set_morph(e: &mut Entities, entity: u64, weight: u32)
    requires
        old(e).wf(),
    ensures
        final(e).wf(),
        final(e).grid == old(e).grid,
        final(e).entries@ == with_state(
            old(e).entries@,
            entity,
            EntityState { morph: Some(weight), ..old(e).entries@[entity].state },
        ),
{
    match state_of(e, entity) {
        Some(s) => set_state(e, entity, EntityState { morph: Some(weight), ..s }),
        None => {},
    }
}

/// Sets whether an entity is at work.
pub fn set_active(e: &mut Entities, entity: u64, active: bool, frame: u64)
    requires
        old(e).wf(),
    ensures
        final(e).wf(),
        final(e).grid == old(e).grid,
        final(e).entries@ == with_state(
            old(e).entries@,
            entity,
            EntityState { active, active_frame: frame, ..old(e).entries@[entity].state },
        ),
{
    match state_of(e, entity) {
        Some(s) => set_state(e, entity, EntityState { active, active_frame: frame, ..s }),
        None => {},
    }
}

/// A player fired a shot.
pub fn set_player_shot(e: &mut Entities, entity: u64, frame: u64)
    requires
        old(e).wf(),
    ensures
        final(e).wf(),
        final(e).grid == old(e).grid,
        final(e).entries@ == with_state(
            old(e).entries@,
            entity,
            EntityState { last_shot: frame, ..old(e).entries@[entity].state },
        ),
{
    match state_of(e, entity) {
        Some(s) => set_state(e, entity, EntityState { last_shot: frame, ..s }),
        None => {},
    }
}

/// The key of the first part of an entity's model.
pub open spec fn first_key(entry: Entry) -> Seq<char> {
    entry.model.parts@[0].key@
}

/// The entity is an electric pole.
pub open spec fn is_pole(entry: Entry) -> bool {
    has_text(first_key(entry), "electric-pole"@)
}

/// An entity, or an electric pole, stands on a tile.
pub open spec fn stands_on(m: Map<u64, Entry>, poles: bool, c: Cell) -> bool {
    exists|k: u64| #[trigger]
        m.contains_key(k) && (poles ==> is_pole(m[k])) && cell_of(m[k].state.pos) == c
}

spec fn row_stands(rows: Seq<Entry>, poles: bool, c: Cell, n: int) -> bool {
    exists|j: int|
        0 <= j < n && (poles ==> is_pole(#[trigger] rows[j])) && cell_of(rows[j].state.pos) == c
}

/// The tiles on which entities stand, or electric poles alone.
pub fn entity_cells(e: &Entities, poles: bool) -> (r: CellSet)
    requires
        e.wf(),
    ensures
        forall|c: Cell| #[trigger] r@.contains(c) <==> stands_on(e.entries@, poles, c),
{
    let mut cells: CellSet = CellSet::new();
    let n: usize = e.entries.len();
    let mut i: usize = 0;
    let ghost rows = e.entries.vals();
    proof {
        e.entries.lemma_rows();
    }
    while i < n
        invariant
            e.wf(),
            i <= n,
            n == rows.len(),
            n == e.entries.ids().len(),
            rows == e.entries.vals(),
            forall|j: int| 0 <= j < n ==> e.entries@.contains_key(#[trigger] e.entries.ids()[j])
                && e.entries@[e.entries.ids()[j]] == rows[j],
            forall|c: Cell| #[trigger] cells@.contains(c) <==> row_stands(rows, poles, c, i as int),
        decreases n - i,
    {
        let ghost before = cells@;
        assert(e.entries@.contains_key(e.entries.ids()[i as int]));
        let entry: &Entry = e.entries.value_at(i);
        let c0: Cell = cell_at(entry.state.pos);
        let counts: bool = !poles || contains(entry.model.parts[0].key.as_str(), "electric-pole");
        if counts {
            cells.insert(c0);
        }
        assert forall|c: Cell| #[trigger] cells@.contains(c) <==> row_stands(rows, poles, c, i + 1) by {
            assert(before.contains(c) <==> row_stands(rows, poles, c, i as int));
            if row_stands(rows, poles, c, i as int) {
                let j = choose|j: int|
                    0 <= j < i && (poles ==> is_pole(#[trigger] rows[j])) && cell_of(
                        rows[j].state.pos,
                    ) == c;
                assert(poles ==> is_pole(rows[j]));
            }
            if counts && c == c0 {
                assert(poles ==> is_pole(rows[i as int]));
            }
        }
        i = i + 1;
    }
    assert forall|c: Cell| #[trigger] cells@.contains(c) <==> stands_on(e.entries@, poles, c) by {
        let ids = e.entries.ids();
        if row_stands(rows, poles, c, n as int) {
            let j = choose|j: int|
                0 <= j < n && (poles ==> is_pole(#[trigger] rows[j])) && cell_of(rows[j].state.pos)
                    == c;
            assert(e.entries@.contains_key(ids[j]));
        }
        if stands_on(e.entries@, poles, c) {
            let k = choose|k: u64| #[trigger]
                e.entries@.contains_key(k) && (poles ==> is_pole(e.entries@[k])) && cell_of(
                    e.entries@[k].state.pos,
                ) == c;
            assert(ids.contains(k));
            let j = ids.index_of(k);
            assert(rows[j] == e.entries@[k]);
        }
    }
    cells
}

/// The tiles of the electric poles, and when they were last looked up.
pub struct PoleCells {
    pub frame: Option<u64>,
    pub cells: CellSet,
}

/// The frames for which what was looked up is good enough.
pub const LOOKUP_FRAMES: u64 = 30;

/// What was looked up is too old.
pub open spec fn outdated(since: Option<u64>, frame: u64) -> bool {
    match since {
        Some(f) => frame >= f + LOOKUP_FRAMES,
        None => true,
    }
}

fn is_outdated(since: Option<u64>, frame: u64) -> (r: bool)
    ensures
        r == outdated(since, frame),
{
    match since {
        Some(f) => frame >= f && frame - f >= LOOKUP_FRAMES,
        None => true,
    }
}

/// Looks the tiles of the electric poles up, though not in every frame: poles do
/// not move.
pub fn electric_pole_cells(cache: &mut PoleCells, e: &Entities, frame: u64)
    requires
        e.wf(),
    ensures
        outdated(old(cache).frame, frame) ==> final(cache).frame == Some(frame) && forall|c: Cell|
         #[trigger]
            final(cache).cells@.contains(c) <==> stands_on(e.entries@, true, c),
        !outdated(old(cache).frame, frame) ==> *final(cache) == *old(cache),
{
    if is_outdated(cache.frame, frame) {
        cache.cells = entity_cells(e, true);
        cache.frame = Some(frame);
    }
}

/// The spans that are drawn. Now and then those that hang in the open are given
/// up.
pub fn take_wires(wires: &mut Vec<WireDraw>, e: &Entities, frame: u64, window: u64)
    requires
        spans_ok(old(wires)@),
        e.wf(),
        window > 0,
    ensures
        spans_ok(final(wires)@),
        frame % 8 != 0 ==> final(wires)@ == old(wires)@,
        frame % 8 == 0 ==> exists|cells: Set<Cell>|
            (forall|c: Cell| #[trigger] cells.contains(c) <==> stands_on(e.entries@, false, c))
                && final(wires)@ == #[trigger] kept_wires(old(wires)@, cells, frame, window),
{
    if frame % 8 == 0 {
        let cells: CellSet = entity_cells(e, false);
        expire_wires(wires, &cells, frame, window);
        assert(wires@ == kept_wires(old(wires)@, cells@, frame, window));
    }
}

/// The spans that stay.
pub open spec fn kept_wires(s: Seq<WireDraw>, cells: Set<Cell>, frame: u64, window: u64) -> Seq<WireDraw> {
    s.filter(|w: WireDraw| stays(w, cells, frame, window))
}

/// Whether a belt is due to be recorded: at first, and then now and then.
pub fn belt_record_due(seen: &mut IdMap<u64>, belt: u64, frame: u64) -> (r: bool)
    requires
        old(seen).wf(),
    ensures
        final(seen).wf(),
        r == outdated(
            if old(seen)@.contains_key(belt) {
                Some(old(seen)@[belt])
            } else {
                None
            },
            frame,
        ),
        final(seen)@ == if r {
            old(seen)@.insert(belt, frame)
        } else {
            old(seen)@
        },
{
    let since: Option<u64> = match seen.get(belt) {
        Some(f) => Some(*f),
        None => None,
    };
    if is_outdated(since, frame) {
        seen.insert(belt, frame);
        true
    } else {
        false
    }
}

/// Once a belt was due it is not due for a while.
pub proof fn lemma_belt_rests(seen: Map<u64, u64>, belt: u64, frame: u64, later: u64)
    requires
        later < frame + LOOKUP_FRAMES,
    ensures
        !outdated(Some(seen.insert(belt, frame)[belt]), later),
{
}

/// How many of the first `n` entities stand on a surface.
pub open spec fn on_surface(rows: Seq<Entry>, surface: u64, n: int) -> nat
    decreases n,
{
    if n <= 0 {
        0
    } else {
        on_surface(rows, surface, n - 1) + if rows[n - 1].state.surface == surface {
            1nat
        } else {
            0nat
        }
    }
}

/// The surface holds more entities than any other, or as many.
pub open spec fn dominates(rows: Seq<Entry>, surface: u64) -> bool {
    let n = rows.len() as int;
    if surface == 0 {
        forall|s: u64| s != 0 ==> #[trigger] on_surface(rows, s, n) == 0
    } else {
        &&& on_surface(rows, surface, n) > 0
        &&& forall|s: u64|
            s != 0 ==> #[trigger] on_surface(rows, s, n) <= on_surface(rows, surface, n)
    }
}

proof fn lemma_on_surface_bound(rows: Seq<Entry>, surface: u64, n: int)
    requires
        0 <= n,
    ensures
        on_surface(rows, surface, n) <= n,
    decreases n,
{
    if n > 0 {
        lemma_on_surface_bound(rows, surface, n - 1);
    }
}

fn count_surfaces(e: &Entities) -> (r: IdMap<u64>)
    requires
        e.wf(),
    ensures
        r.wf(),
        forall|s: u64| #[trigger]
            r@.contains_key(s) <==> s != 0 && on_surface(
                e.entries.vals(),
                s,
                e.entries.vals().len() as int,
            ) > 0,
        forall|s: u64| #[trigger]
            r@.contains_key(s) ==> r@[s] == on_surface(
                e.entries.vals(),
                s,
                e.entries.vals().len() as int,
            ),
{
    let mut counts: IdMap<u64> = IdMap::new();
    let n: usize = e.entries.len();
    let ghost rows = e.entries.vals();
    let mut i: usize = 0;
    while i < n
        invariant
            e.wf(),
            counts.wf(),
            i <= n,
            n == rows.len(),
            rows == e.entries.vals(),
            forall|s: u64| #[trigger]
                counts@.contains_key(s) <==> s != 0 && on_surface(rows, s, i as int) > 0,
            forall|s: u64| #[trigger]
                counts@.contains_key(s) ==> counts@[s] == on_surface(rows, s, i as int),
        decreases n - i,
    {
        let s: u64 = e.entries.value_at(i).state.surface;
        if s != 0 {
            let c: u64 = match counts.get(s) {
                Some(c) => *c,
                None => 0,
            };
            proof {
                lemma_on_surface_bound(rows, s, i as int);
                assert(c == on_surface(rows, s, i as int)) by {
                    if !counts@.contains_key(s) {
                        assert(on_surface(rows, s, i as int) == 0);
                    }
                }
            }
            counts.insert(s, c + 1);
        }
        i = i + 1;
    }
    counts
}

fn most_counted(counts: &IdMap<u64>) -> (r: u64)
    requires
        counts.wf(),
        forall|s: u64| #[trigger] counts@.contains_key(s) ==> s != 0 && counts@[s] > 0,
    ensures
        r == 0 <==> counts@.dom() =~= Set::<u64>::empty(),
        r != 0 ==> counts@.contains_key(r),
        forall|s: u64| #[trigger] counts@.contains_key(s) ==> counts@[s] <= counts@[r],
{
    let n: usize = counts.len();
    let mut best: u64 = 0;
    let mut most: u64 = 0;
    let mut i: usize = 0;
    let ghost ids = counts.ids();
    proof {
        counts.lemma_rows();
    }
    while i < n
        invariant
            counts.wf(),
            i <= n,
            n == ids.len(),
            n == counts.vals().len(),
            ids == counts.ids(),
            forall|s: u64| #[trigger] counts@.contains_key(s) ==> s != 0 && counts@[s] > 0,
            forall|j: int| 0 <= j < n ==> counts@.contains_key(#[trigger] ids[j])
                && counts@[ids[j]] == counts.vals()[j],
            i == 0 <==> best == 0,
            best == 0 ==> most == 0,
            best != 0 ==> counts@.contains_key(best) && counts@[best] == most,
            forall|j: int| 0 <= j < i ==> counts@[#[trigger] ids[j]] <= most,
        decreases n - i,
    {
        let c: u64 = *counts.value_at(i);
        let id: u64 = counts.id_at(i);
        assert(counts@.contains_key(ids[i as int]));
        if c > most {
            most = c;
            best = id;
        }
        i = i + 1;
    }
    proof {
        assert forall|s: u64| #[trigger] counts@.contains_key(s) implies counts@[s] <= counts@[best] && best != 0 by {
            assert(ids.contains(s));
            let j = ids.index_of(s);
            assert(counts@[ids[j]] <= most);
        }
        if best == 0 {
            assert(counts@.dom() =~= Set::<u64>::empty());
        } else {
            assert(counts@.dom().contains(best));
        }
    }
    best
}

/// The surface that most entities stand on, and when it was last looked up.
#[derive(Clone, Copy, PartialEq, Eq, Structural, Debug)]
pub struct MainSurface {
    pub frame: Option<u64>,
    pub surface: u64,
}

/// Looks up the surface that most entities stand on, though not in every frame.
/// The views of other surfaces overlap with it, so that only its entities are
/// drawn. Where two hold as many, either may be taken.
pub fn dominant_surface(cache: &mut MainSurface, e: &Entities, frame: u64) -> (r: u64)
    requires
        e.wf(),
    ensures
        r == final(cache).surface,
        outdated(old(cache).frame, frame) ==> final(cache).frame == Some(frame) && dominates(
            e.entries.vals(),
            r,
        ),
        !outdated(old(cache).frame, frame) ==> *final(cache) == *old(cache),
{
    if is_outdated(cache.frame, frame) {
        let counts: IdMap<u64> = count_surfaces(e);
        let best: u64 = most_counted(&counts);
        proof {
            let rows = e.entries.vals();
            let n = rows.len() as int;
            assert forall|s: u64| s != 0 implies #[trigger] on_surface(rows, s, n) <= (if best == 0 { 0 } else { on_surface(rows, best, n) }) by {
                if on_surface(rows, s, n) > 0 {
                    assert(counts@.contains_key(s));
                    assert(counts@.dom().contains(s));
                }
            }
        }
        cache.surface = best;
        cache.frame = Some(frame);
    }
    cache.surface
}

/// A ghost: the preview of an entity.
#[derive(Debug)]
pub struct Ghost3d {
    pub model: EntityModel,
    pub pos: MapPos,
    pub dir: u8,
    pub frame: u64,
}

/// What a ghost is.
pub ghost struct GhostSpec {
    pub model: EntityModelSpec,
    pub pos: MapPos,
    pub dir: u8,
    pub frame: u64,
}

impl View for Ghost3d {
    type V = GhostSpec;

    open spec fn view(&self) -> GhostSpec {
        GhostSpec { model: self.model@, pos: self.pos, dir: self.dir, frame: self.frame }
    }
}

pub open spec fn ghost_views(v: Seq<Ghost3d>) -> Seq<GhostSpec> {
    v.map_values(|g: Ghost3d| g@)
}

/// The most ghosts.
pub const MAX_GHOSTS: usize = 256;

/// The ghost is of the same model at the same place.
pub open spec fn same_ghost(g: GhostSpec, key: Seq<char>, pos: MapPos) -> bool {
    g.model.parts[0].key == key && g.pos == pos
}

/// Where the first ghost of a model at a place stands.
pub open spec fn ghost_at(s: Seq<GhostSpec>, key: Seq<char>, pos: MapPos) -> Option<int>
    decreases s.len(),
{
    if s.len() == 0 {
        None
    } else if ghost_at(s.drop_last(), key, pos) is Some {
        ghost_at(s.drop_last(), key, pos)
    } else if same_ghost(s.last(), key, pos) {
        Some(s.len() - 1)
    } else {
        None
    }
}

/// The ghosts after one was drawn: those of an earlier frame are given up, and
/// the last draw of a ghost decides its direction.
pub open spec fn with_ghost(s: Seq<GhostSpec>, g: GhostSpec) -> Seq<GhostSpec> {
    let base = if s.len() > 0 && s[0].frame != g.frame {
        Seq::empty()
    } else {
        s
    };
    match ghost_at(base, g.model.parts[0].key, g.pos) {
        Some(i) => base.update(i, GhostSpec { dir: g.dir, frame: g.frame, ..base[i] }),
        None => if base.len() < MAX_GHOSTS {
            base.push(g)
        } else {
            base
        },
    }
}

/// All ghosts have a model with a part.
pub open spec fn ghosts_ok(s: Seq<Ghost3d>) -> bool {
    &&& s.len() <= MAX_GHOSTS
    &&& forall|i: int| 0 <= i < s.len() ==> (#[trigger] s[i]).model.parts@.len() > 0
}

proof fn lemma_ghost_prefix(s: Seq<GhostSpec>, n: int, key: Seq<char>, pos: MapPos)
    requires
        0 <= n <= s.len(),
        ghost_at(s.take(n), key, pos) is Some,
    ensures
        ghost_at(s, key, pos) == ghost_at(s.take(n), key, pos),
    decreases s.len(),
{
    if n == s.len() {
        assert(s.take(n) =~= s);
    } else {
        assert(s.drop_last().take(n) =~= s.take(n));
        lemma_ghost_prefix(s.drop_last(), n, key, pos);
    }
}

fn find_ghost(v: &Vec<Ghost3d>, key: &str, pos: MapPos) -> (r: Option<usize>)
    requires
        ghosts_ok(v@),
    ensures
        r is Some <==> ghost_at(ghost_views(v@), key@, pos) is Some,
        r matches Some(i) ==> i < v.len() && ghost_at(ghost_views(v@), key@, pos) == Some(i as int),
{
    let ghost s = ghost_views(v@);
    let mut i: usize = 0;
    while i < v.len()
        invariant
            i <= v.len(),
            ghosts_ok(v@),
            s == ghost_views(v@),
            ghost_at(s.take(i as int), key@, pos) is None,
        decreases v.len() - i,
    {
        assert(s.take(i + 1).drop_last() =~= s.take(i as int));
        assert(s.take(i + 1).last() == v@[i as int]@);
        assert(v@[i as int]@.model.parts[0] == v@[i as int].model.parts@[0]@);
        if v[i].pos == pos && str_eq(v[i].model.parts[0].key.as_str(), key) {
            proof {
                lemma_ghost_prefix(s, i + 1, key@, pos);
            }
            return Some(i);
        }
        i = i + 1;
    }
    assert(s.take(i as int) =~= s);
    None
}

/// Takes note of a ghost.
pub fn record_ghost(ghosts: &mut Vec<Ghost3d>, model: &EntityModel, pos: MapPos, dir: u8, frame: u64)
    requires
        ghosts_ok(old(ghosts)@),
        model.parts@.len() > 0,
    ensures
        ghosts_ok(final(ghosts)@),
        ghost_views(final(ghosts)@) == with_ghost(
            ghost_views(old(ghosts)@),
            GhostSpec { model: model@, pos, dir, frame },
        ),
{
    if ghosts.len() > 0 && ghosts[0].frame != frame {
        assert(ghost_views(ghosts@)[0].frame == ghosts@[0].frame);
        ghosts.clear();
    }
    let ghost base = ghosts@;
    assert(ghost_views(base) =~= if old(ghosts)@.len() > 0 && ghost_views(old(ghosts)@)[0].frame != frame {
        Seq::empty()
    } else {
        ghost_views(old(ghosts)@)
    });
    assert(model@.parts[0].key == model.parts@[0].key@);
    match find_ghost(ghosts, model.parts[0].key.as_str(), pos) {
        Some(i) => {
            let g: &mut Ghost3d = &mut ghosts[i];
            g.dir = dir;
            g.frame = frame;
            assert(ghost_views(ghosts@) =~= ghost_views(base).update(
                i as int,
                GhostSpec { dir, frame, ..ghost_views(base)[i as int] },
            ));
        },
        None => {
            if ghosts.len() < MAX_GHOSTS {
                let m: EntityModel = copy_model(model);
                assert(m@.parts.len() == m.parts@.len());
                assert(model@.parts.len() == model.parts@.len());
                ghosts.push(Ghost3d { model: m, pos, dir, frame });
                assert(ghost_views(ghosts@) =~= ghost_views(base).push(
                    GhostSpec { model: model@, pos, dir, frame },
                ));
            }
        },
    }
}

/// The frames for which a ghost is drawn.
pub const GHOST_FRAMES: u64 = 2;

/// Whether a ghost is drawn: for a few frames after it was noted.
pub fn ghost_shows(g: &Ghost3d, frame: u64) -> (r: bool)
    ensures
        r == within(frame, g.frame, GHOST_FRAMES),
{
    is_within(frame, g.frame, GHOST_FRAMES)
}

/// How an entity is drawn.
#[derive(Clone, Copy, PartialEq, Eq, Structural, Debug)]
pub enum DrawAs {
    Player,
    /// By its neighbours.
    Connectable,
    Robot,
    Plain,
}

/// The entity flies.
pub open spec fn is_robot_key(key: Seq<char>) -> bool {
    has_text(key, "construction-robot"@) || has_text(key, "logistic-robot"@)
}

/// Whether an entity flies.
pub fn is_robot(key: &str) -> (r: bool)
    ensures
        r == is_robot_key(key@),
{
    contains(key, "construction-robot") || contains(key, "logistic-robot")
}

/// How an entity is drawn, where it is. One of another surface is not, nor one
/// that is far from the view. A player who is no longer drawn by the game has
/// got into a vehicle, and is hidden at once.
pub open spec fn draw_as(
    entry: Entry,
    frame: u64,
    main: u64,
    cull: ViewCull,
    expire: u64,
) -> Option<DrawAs> {
    let s = entry.state;
    if (s.surface != 0 && main != 0 && s.surface != main) || !cull.holds(s.pos) {
        None
    } else if s.is_player {
        if within(frame, s.last_change, expire) {
            Some(DrawAs::Player)
        } else {
            None
        }
    } else if entry.model.kind != ConnKind::Plain {
        Some(DrawAs::Connectable)
    } else if is_robot_key(first_key(entry)) {
        Some(DrawAs::Robot)
    } else {
        Some(DrawAs::Plain)
    }
}

fn how_drawn(entry: &Entry, frame: u64, main: u64, cull: &ViewCull, expire: u64) -> (r: Option<DrawAs>)
    requires
        entry.model.parts@.len() > 0,
    ensures
        r == draw_as(*entry, frame, main, *cull, expire),
{
    let s: &EntityState = &entry.state;
    if (s.surface != 0 && main != 0 && s.surface != main) || !cull.contains(s.pos) {
        None
    } else if s.is_player {
        if is_within(frame, s.last_change, expire) {
            Some(DrawAs::Player)
        } else {
            None
        }
    } else if entry.model.kind != ConnKind::Plain {
        Some(DrawAs::Connectable)
    } else if is_robot(entry.model.parts[0].key.as_str()) {
        Some(DrawAs::Robot)
    } else {
        Some(DrawAs::Plain)
    }
}

/// An entity that is drawn in a frame.
#[derive(Clone, Copy, PartialEq, Eq, Structural, Debug)]
pub struct Drawn {
    pub entity: u64,
    pub how: DrawAs,
}

/// Those of the first `n` entities that are drawn.
pub open spec fn drawn_of(
    ids: Seq<u64>,
    rows: Seq<Entry>,
    frame: u64,
    main: u64,
    cull: ViewCull,
    expire: u64,
    n: int,
) -> Seq<Drawn>
    decreases n,
{
    if n <= 0 {
        Seq::empty()
    } else {
        let before = drawn_of(ids, rows, frame, main, cull, expire, n - 1);
        match draw_as(rows[n - 1], frame, main, cull, expire) {
            Some(how) => before.push(Drawn { entity: ids[n - 1], how }),
            None => before,
        }
    }
}

/// The entities that are drawn in a frame, and how.
pub fn tick(e: &Entities, frame: u64, main: u64, cull: &ViewCull, expire: u64) -> (r: Vec<Drawn>)
    requires
        e.wf(),
    ensures
        r@ == drawn_of(
            e.entries.ids(),
            e.entries.vals(),
            frame,
            main,
            *cull,
            expire,
            e.entries.ids().len() as int,
        ),
{
    let mut out: Vec<Drawn> = Vec::new();
    let n: usize = e.entries.len();
    let mut i: usize = 0;
    let ghost ids = e.entries.ids();
    let ghost rows = e.entries.vals();
    proof {
        e.entries.lemma_rows();
    }
    while i < n
        invariant
            e.wf(),
            i <= n,
            n == ids.len(),
            n == rows.len(),
            ids == e.entries.ids(),
            rows == e.entries.vals(),
            forall|j: int| 0 <= j < n ==> e.entries@.contains_key(#[trigger] ids[j])
                && e.entries@[ids[j]] == rows[j],
            out@ == drawn_of(ids, rows, frame, main, *cull, expire, i as int),
        decreases n - i,
    {
        assert(e.entries@.contains_key(ids[i as int]));
        match how_drawn(e.entries.value_at(i), frame, main, cull, expire) {
            Some(how) => {
                out.push(Drawn { entity: e.entries.id_at(i), how });
            },
            None => {},
        }
        i = i + 1;
    }
    out
}

/// Only entities of the main surface, or of an unknown one, are drawn, only near
/// the view, and each at most once.
pub proof fn lemma_drawn_once(
    ids: Seq<u64>,
    rows: Seq<Entry>,
    frame: u64,
    main: u64,
    cull: ViewCull,
    expire: u64,
    n: int,
)
    requires
        0 <= n <= ids.len(),
        ids.len() == rows.len(),
        ids.no_duplicates(),
    ensures
        ({
            let d = drawn_of(ids, rows, frame, main, cull, expire, n);
            &&& forall|i: int|
                0 <= i < d.len() ==> exists|j: int|
                    0 <= j < n && ids[j] == (#[trigger] d[i]).entity && shown_row(
                        #[trigger] rows[j],
                        main,
                        cull,
                    )
            &&& forall|i: int, k: int|
                0 <= i < k < d.len() ==> (#[trigger] d[i]).entity != (#[trigger] d[k]).entity
        }),
    decreases n,
{
    if n > 0 {
        lemma_drawn_once(ids, rows, frame, main, cull, expire, n - 1);
        let b = drawn_of(ids, rows, frame, main, cull, expire, n - 1);
        let d = drawn_of(ids, rows, frame, main, cull, expire, n);
        assert forall|i: int| 0 <= i < d.len() implies exists|j: int|
            0 <= j < n && ids[j] == (#[trigger] d[i]).entity && shown_row(#[trigger] rows[j], main, cull) by {
            if i < b.len() {
                assert(d[i] == b[i]);
                let j = choose|j: int|
                    0 <= j < n - 1 && ids[j] == b[i].entity && shown_row(#[trigger] rows[j], main, cull);
                assert(shown_row(rows[j], main, cull));
            } else {
                assert(shown_row(rows[n - 1], main, cull));
            }
        }
        assert forall|i: int, k: int| 0 <= i < k < d.len() implies (#[trigger] d[i]).entity != (#[trigger] d[k]).entity by {
            assert(d[i] == b[i]);
            if k == b.len() {
                let j = choose|j: int|
                    0 <= j < n - 1 && ids[j] == b[i].entity && shown_row(#[trigger] rows[j], main, cull);
                assert(ids[j] != ids[n - 1]);
            } else {
                assert(d[k] == b[k]);
            }
        }
    }
}

proof fn lemma_drawn_of_row(
    ids: Seq<u64>,
    rows: Seq<Entry>,
    frame: u64,
    main: u64,
    cull: ViewCull,
    expire: u64,
    n: int,
    j: int,
)
    requires
        0 <= j < n <= ids.len(),
        ids.len() == rows.len(),
    ensures
        draw_as(rows[j], frame, main, cull, expire) matches Some(how) ==> drawn_of(
            ids,
            rows,
            frame,
            main,
            cull,
            expire,
            n,
        ).contains(Drawn { entity: ids[j], how }),
    decreases n,
{
    let d = drawn_of(ids, rows, frame, main, cull, expire, n);
    let b = drawn_of(ids, rows, frame, main, cull, expire, n - 1);
    match draw_as(rows[j], frame, main, cull, expire) {
        Some(how) => {
            let it = Drawn { entity: ids[j], how };
            if j < n - 1 {
                lemma_drawn_of_row(ids, rows, frame, main, cull, expire, n - 1, j);
                let k = choose|k: int| 0 <= k < b.len() && b[k] == it;
                assert(d[k] == it);
            } else {
                assert(d[b.len() as int] == it);
            }
        },
        None => {},
    }
}

proof fn lemma_drawn_from_row(
    ids: Seq<u64>,
    rows: Seq<Entry>,
    frame: u64,
    main: u64,
    cull: ViewCull,
    expire: u64,
    n: int,
    k: int,
)
    requires
        0 <= n <= ids.len(),
        ids.len() == rows.len(),
        0 <= k < drawn_of(ids, rows, frame, main, cull, expire, n).len(),
    ensures
        exists|j: int|
            0 <= j < n && ids[j] == drawn_of(ids, rows, frame, main, cull, expire, n)[k].entity && draw_as(
                #[trigger] rows[j],
                frame,
                main,
                cull,
                expire,
            ) == Some(drawn_of(ids, rows, frame, main, cull, expire, n)[k].how),
    decreases n,
{
    if n > 0 {
        let b = drawn_of(ids, rows, frame, main, cull, expire, n - 1);
        if k < b.len() {
            lemma_drawn_from_row(ids, rows, frame, main, cull, expire, n - 1, k);
        } else {
            assert(draw_as(rows[n - 1], frame, main, cull, expire) is Some);
        }
    }
}

/// Every entity that is near the view, on the main surface or on an unknown one, is
/// drawn in every frame, however long ago it changed; only a player goes once the
/// game has not drawn it for `expire` frames. Nothing else is drawn. A player is
/// drawn as one, what connects to its neighbours by them, and a robot in the air.
pub proof fn lemma_all_near_are_drawn(
    e: &Entities,
    frame: u64,
    main: u64,
    cull: &ViewCull,
    expire: u64,
    r: Vec<Drawn>,
    entity: u64,
)
    requires
        e.wf(),
        call_ensures(tick, (e, frame, main, cull, expire), r),
    ensures
        e.entries@.contains_key(entity) ==> ({
            let s = e.entries@[entity].state;
            let near = !cull.active || (cull.x0 < 5 * s.pos.x < cull.x1 && cull.y0 < 5 * s.pos.y < cull.y1);
            let here = s.surface == 0 || main == 0 || s.surface == main;
            let robot = has_text(e.entries@[entity].model.parts@[0].key@, "construction-robot"@) || has_text(
                e.entries@[entity].model.parts@[0].key@,
                "logistic-robot"@,
            );
            let connects = e.entries@[entity].model.kind != ConnKind::Plain;
            &&& near && here && !s.is_player && connects ==> r@.contains(
                Drawn { entity, how: DrawAs::Connectable },
            )
            &&& near && here && !s.is_player && !connects && robot ==> r@.contains(
                Drawn { entity, how: DrawAs::Robot },
            )
            &&& near && here && !s.is_player && !connects && !robot ==> r@.contains(
                Drawn { entity, how: DrawAs::Plain },
            )
            &&& near && here && s.is_player && frame <= s.last_change + expire ==> r@.contains(
                Drawn { entity, how: DrawAs::Player },
            )
            &&& !near || !here || (s.is_player && frame > s.last_change + expire) ==> forall|how: DrawAs|
                !#[trigger] r@.contains(Drawn { entity, how })
        }),
        !e.entries@.contains_key(entity) ==> forall|how: DrawAs|
            !#[trigger] r@.contains(Drawn { entity, how }),
{
    let ids = e.entries.ids();
    let rows = e.entries.vals();
    let n = ids.len() as int;
    e.entries.lemma_rows();
    if e.entries@.contains_key(entity) {
        let j = choose|j: int| 0 <= j < n && ids[j] == entity;
        assert(e.entries@[ids[j]] == rows[j]);
        lemma_drawn_of_row(ids, rows, frame, main, *cull, expire, n, j);
    }
    assert forall|how: DrawAs| #[trigger] r@.contains(Drawn { entity, how }) implies e.entries@.contains_key(
        entity,
    ) && draw_as(e.entries@[entity], frame, main, *cull, expire) == Some(how) by {
        let k = choose|k: int| 0 <= k < r@.len() && r@[k] == (Drawn { entity, how });
        lemma_drawn_from_row(ids, rows, frame, main, *cull, expire, n, k);
        let j = choose|j: int|
            0 <= j < n && ids[j] == r@[k].entity && draw_as(#[trigger] rows[j], frame, main, *cull, expire)
                == Some(r@[k].how);
        assert(e.entries@.contains_key(ids[j]));
    }
}

/// The entity is on the main surface or on an unknown one, and is near the view.
pub open spec fn shown_row(entry: Entry, main: u64, cull: ViewCull) -> bool {
    &&& entry.state.surface == 0 || main == 0 || entry.state.surface == main
    &&& cull.holds(entry.state.pos)
}

/// The frames for which a change counts as work.
pub const WORKING_WINDOW_FRAMES: u64 = 8;

/// Whether an entity works: its fingerprint changed not too long ago.
pub fn is_working(s: &EntityState, frame: u64) -> (r: bool)
    ensures
        r == (s.last_change != 0 && within(frame, s.last_change, WORKING_WINDOW_FRAMES)),
{
    s.last_change != 0 && is_within(frame, s.last_change, WORKING_WINDOW_FRAMES)
}

/// Some part of the model spins.
pub open spec fn has_spin(m: EntityModel) -> bool {
    exists|i: int| 0 <= i < m.parts@.len() && (#[trigger] m.parts@[i]).yaw == YawSource::Spin
}

/// Whether the dish of an entity goes on turning: while the entity is drawn over
/// and over.
pub fn advances_spin(entry: &Entry, frame: u64) -> (r: bool)
    ensures
        r == (has_spin(entry.model) && frame < entry.state.last_change + 15),
{
    let mut i: usize = 0;
    while i < entry.model.parts.len()
        invariant
            i <= entry.model.parts.len(),
            forall|j: int|
                0 <= j < i ==> (#[trigger] entry.model.parts@[j]).yaw != YawSource::Spin,
        decreases entry.model.parts.len() - i,
    {
        if entry.model.parts[i].yaw == YawSource::Spin {
            return frame < entry.state.last_change || frame - entry.state.last_change < 15;
        }
        i = i + 1;
    }
    false
}

/// The poses of a player.
pub const POSE_IDLE: u8 = 0;

pub const POSE_RUN: u8 = 1;

pub const POSE_SHOOT_RUN: u8 = 2;

pub const POSE_SHOOT_STAND: u8 = 3;

pub const POSE_MINE: u8 = 4;

/// Five tiles, in 256ths of one.
pub const JUMP: i64 = 1280;

/// A player moved from one position to another without a jump.
pub open spec fn stepped(from: MapPos, to: MapPos) -> bool {
    let dx = to.x - from.x;
    let dy = to.y - from.y;
    from != to && dx * dx + dy * dy < 1280 * 1280
}

fn is_step(from: MapPos, to: MapPos) -> (r: bool)
    ensures
        r == stepped(from, to),
{
    let dx: i64 = to.x as i64 - from.x as i64;
    let dy: i64 = to.y as i64 - from.y as i64;
    assert(dx * dx >= 0) by (nonlinear_arith);
    assert(dy * dy >= 0) by (nonlinear_arith);
    if dx >= JUMP || dx <= -JUMP {
        assert(dx * dx >= 1280 * 1280) by (nonlinear_arith)
            requires
                dx >= 1280 || dx <= -1280,
        ;
        return false;
    }
    if dy >= JUMP || dy <= -JUMP {
        assert(dy * dy >= 1280 * 1280) by (nonlinear_arith)
            requires
                dy >= 1280 || dy <= -1280,
        ;
        return false;
    }
    assert(dx * dx <= 1280 * 1280) by (nonlinear_arith)
        requires
            -1280 < dx < 1280,
    ;
    assert(dy * dy <= 1280 * 1280) by (nonlinear_arith)
        requires
            -1280 < dy < 1280,
    ;
    (dx != 0 || dy != 0) && dx * dx + dy * dy < JUMP * JUMP
}

/// The frames for which a move counts as running.
pub const MOVE_FRAMES: u64 = 8;

/// The pose of a player: to mine comes before to shoot, and that before to run.
pub open spec fn pose_of(
    frame: u64,
    last_move: u64,
    last_shot: u64,
    mining: u64,
    mine_window: u64,
    shoot_window: u64,
) -> u8 {
    let moving = within(frame, last_move, MOVE_FRAMES);
    let shooting = last_shot != 0 && within(frame, last_shot, shoot_window);
    if mining != 0 && within(frame, mining, mine_window) {
        POSE_MINE
    } else if shooting && moving {
        POSE_SHOOT_RUN
    } else if shooting {
        POSE_SHOOT_STAND
    } else if moving {
        POSE_RUN
    } else {
        POSE_IDLE
    }
}

/// What happened to a player in a frame.
#[derive(Clone, Copy, PartialEq, Eq, Structural, Debug)]
pub struct PlayerTick {
    pub pose: u8,
    /// The player made a step.
    pub stepped: bool,
    /// The pose is new, so that its clip starts over.
    pub restarted: bool,
    /// The player stands on a belt.
    pub on_belt: bool,
}

/// The frames for which what a player does is seen.
#[derive(Clone, Copy, PartialEq, Eq, Structural, Debug)]
pub struct PoseWindows {
    pub mine: u64,
    pub shoot: u64,
}

/// What happens to a player in a frame.
pub open spec fn player_tick(
    s: EntityState,
    g: Map<Cell, Joint>,
    frame: u64,
    mining: u64,
    w: PoseWindows,
) -> PlayerTick {
    let step = stepped(s.prev, s.pos);
    let last = if step {
        frame
    } else {
        s.last_move
    };
    let pose = pose_of(frame, last, s.last_shot, mining, w.mine, w.shoot);
    PlayerTick {
        pose,
        stepped: step,
        restarted: pose != s.player_state,
        on_belt: joint_at(g, cell_of(s.pos)) matches Some(j) && belt_kind(j.kind),
    }
}

/// What is known of a player after a frame.
pub open spec fn player_after(s: EntityState, t: PlayerTick, frame: u64) -> EntityState {
    EntityState {
        last_move: if t.stepped {
            frame
        } else {
            s.last_move
        },
        prev: s.pos,
        player_state: t.pose,
        ..s
    }
}

fn pose(frame: u64, last_move: u64, last_shot: u64, mining: u64, w: &PoseWindows) -> (r: u8)
    ensures
        r == pose_of(frame, last_move, last_shot, mining, w.mine, w.shoot),
{
    let moving: bool = is_within(frame, last_move, MOVE_FRAMES);
    let shooting: bool = last_shot != 0 && is_within(frame, last_shot, w.shoot);
    if mining != 0 && is_within(frame, mining, w.mine) {
        POSE_MINE
    } else if shooting && moving {
        POSE_SHOOT_RUN
    } else if shooting {
        POSE_SHOOT_STAND
    } else if moving {
        POSE_RUN
    } else {
        POSE_IDLE
    }
}

/// Brings a player up to a frame. `mining` is the last frame in which the player
/// mined; 0 for none.
pub fn update_player(e: &mut Entities, entity: u64, frame: u64, mining: u64, w: &PoseWindows) -> (r: Option<PlayerTick>)
    requires
        old(e).wf(),
    ensures
        final(e).wf(),
        final(e).grid == old(e).grid,
        r is Some <==> old(e).entries@.contains_key(entity),
        r is None ==> final(e).entries@ == old(e).entries@,
        r matches Some(t) ==> {
            let s = old(e).entries@[entity].state;
            &&& t == player_tick(s, old(e).grid@, frame, mining, *w)
            &&& final(e).entries@ == with_state(
                old(e).entries@,
                entity,
                player_after(s, t, frame),
            )
        },
{
    match state_of(e, entity) {
        Some(s) => {
            let stepped: bool = is_step(s.prev, s.pos);
            let last: u64 = if stepped {
                frame
            } else {
                s.last_move
            };
            let p: u8 = pose(frame, last, s.last_shot, mining, w);
            let on_belt: bool = match e.grid.get(cell_at(s.pos)) {
                Some(j) => match j.kind {
                    ConnKind::Belt | ConnKind::Under | ConnKind::Splitter => true,
                    _ => false,
                },
                None => false,
            };
            set_state(
                e,
                entity,
                EntityState { last_move: last, prev: s.pos, player_state: p, ..s },
            );
            Some(PlayerTick { pose: p, stepped, restarted: p != s.player_state, on_belt })
        },
        None => None,
    }
}

/// A player who mines is seen to mine, whatever else happens, and the pose is
/// always one that there is a model of.
pub proof fn lemma_pose(
    frame: u64,
    last_move: u64,
    last_shot: u64,
    mining: u64,
    mine_window: u64,
    shoot_window: u64,
)
    ensures
        pose_of(frame, last_move, last_shot, mining, mine_window, shoot_window) < 5,
        frame != 0 ==> pose_of(frame, last_move, last_shot, frame, mine_window, shoot_window)
            == POSE_MINE,
        pose_of(frame, last_move, 0, 0, mine_window, shoot_window) == POSE_RUN || pose_of(
            frame,
            last_move,
            0,
            0,
            mine_window,
            shoot_window,
        ) == POSE_IDLE,
{
}

/// What a part of a model turns by.
#[derive(Clone, Copy, PartialEq, Eq, Structural, Debug)]
pub enum BaseYaw {
    Zero,
    /// An orientation, as the bits of a 32-bit float.
    Orientation(u32),
    /// A direction of sixteen.
    Direction(u8),
    Spin,
}

/// What a part of a model turns by.
pub open spec fn base_yaw_of(yaw: YawSource, s: EntityState) -> BaseYaw {
    match (yaw, s.orientation) {
        (YawSource::Direction, Some(o)) => BaseYaw::Orientation(o),
        (YawSource::Direction, None) => BaseYaw::Direction(s.dir),
        (YawSource::Orientation, Some(o)) => BaseYaw::Orientation(o),
        (YawSource::Orientation, None) => BaseYaw::Zero,
        (YawSource::Fixed, _) => BaseYaw::Zero,
        (YawSource::Spin, _) => BaseYaw::Spin,
    }
}

fn base_yaw(yaw: YawSource, s: &EntityState) -> (r: BaseYaw)
    ensures
        r == base_yaw_of(yaw, *s),
{
    match yaw {
        YawSource::Direction => match s.orientation {
            Some(o) => BaseYaw::Orientation(o),
            None => BaseYaw::Direction(s.dir),
        },
        YawSource::Orientation => match s.orientation {
            Some(o) => BaseYaw::Orientation(o),
            None => BaseYaw::Zero,
        },
        YawSource::Fixed => BaseYaw::Zero,
        YawSource::Spin => BaseYaw::Spin,
    }
}

/// The setting that adds to the turn of a model.
#[derive(Clone, Copy, PartialEq, Eq, Structural, Debug)]
pub enum ExtraYaw {
    Zero,
    Under,
    Splitter,
    TurretHead,
    Tank,
    Car,
    Biter,
    Player,
    Vehicle,
}

/// The setting that adds to the turn of a model, by its key.
pub open spec fn extra_yaw_of(key: Seq<char>, oriented: bool) -> ExtraYaw {
    if has_text(key, "underground-belt"@) {
        ExtraYaw::Under
    } else if has_text(key, "splitter"@) {
        ExtraYaw::Splitter
    } else if has_text(key, "gun-turret/static2"@) {
        ExtraYaw::TurretHead
    } else if has_text(key, "VEHICLES/tank/"@) {
        ExtraYaw::Tank
    } else if has_text(key, "VEHICLES/car/"@) {
        ExtraYaw::Car
    } else if has_text(key, "ENEMIES/biters"@) {
        ExtraYaw::Biter
    } else if has_text(key, "ENTITIES/PLAYER"@) {
        ExtraYaw::Player
    } else if oriented {
        ExtraYaw::Vehicle
    } else {
        ExtraYaw::Zero
    }
}

/// The setting that adds to the turn of a model, by its key.
pub fn key_extra_yaw(key: &str, oriented: bool) -> (r: ExtraYaw)
    ensures
        r == extra_yaw_of(key@, oriented),
{
    if contains(key, "underground-belt") {
        ExtraYaw::Under
    } else if contains(key, "splitter") {
        ExtraYaw::Splitter
    } else if contains(key, "gun-turret/static2") {
        ExtraYaw::TurretHead
    } else if contains(key, "VEHICLES/tank/") {
        ExtraYaw::Tank
    } else if contains(key, "VEHICLES/car/") {
        ExtraYaw::Car
    } else if contains(key, "ENEMIES/biters") {
        ExtraYaw::Biter
    } else if contains(key, "ENTITIES/PLAYER") {
        ExtraYaw::Player
    } else if oriented {
        ExtraYaw::Vehicle
    } else {
        ExtraYaw::Zero
    }
}

/// Which position of an entity its model is placed at.
#[derive(Clone, Copy, PartialEq, Eq, Structural, Debug)]
pub enum Place {
    /// Where it was first seen: a rocket stays at its silo.
    First,
    /// A smoothed one: players and robots.
    Smoothed,
    Live,
}

/// Where a model is placed.
pub open spec fn place_of(s: EntityState, robot: bool) -> Place {
    if s.rocket is Some {
        Place::First
    } else if s.is_player || robot {
        Place::Smoothed
    } else {
        Place::Live
    }
}

/// The frames for which an entity counts as active.
pub const ACTIVE_FRAMES: u64 = 30;

/// The bits of infinity as a 32-bit float.
pub const INFINITY: u32 = 0x7F80_0000;

/// How a part of an entity's model is drawn.
#[derive(Debug)]
pub struct PartDraw {
    pub key: String,
    pub base: BaseYaw,
    pub extra: ExtraYaw,
    pub place: Place,
    /// The model ships mirrored.
    pub mirrored: bool,
    pub active: bool,
    /// It has the colour of the player.
    pub tinted: bool,
    pub robot: bool,
}

/// What a `PartDraw` says.
pub ghost struct PartDrawSpec {
    pub key: Seq<char>,
    pub base: BaseYaw,
    pub extra: ExtraYaw,
    pub place: Place,
    pub mirrored: bool,
    pub active: bool,
    pub tinted: bool,
    pub robot: bool,
}

impl View for PartDraw {
    type V = PartDrawSpec;

    open spec fn view(&self) -> PartDrawSpec {
        PartDrawSpec {
            key: self.key@,
            base: self.base,
            extra: self.extra,
            place: self.place,
            mirrored: self.mirrored,
            active: self.active,
            tinted: self.tinted,
            robot: self.robot,
        }
    }
}

/// How a part of an entity's model is drawn.
pub open spec fn part_draw_of(entry: Entry, i: int, frame: u64) -> PartDrawSpec {
    let s = entry.state;
    let part = entry.model.parts@[i];
    let robot = is_robot_key(first_key(entry));
    let key = if s.is_player {
        player_key_of(s.player_state as int)
    } else {
        part.key@
    };
    PartDrawSpec {
        key,
        base: base_yaw_of(part.yaw, s),
        extra: extra_yaw_of(key, s.orientation is Some && part.yaw == YawSource::Direction),
        place: place_of(s, robot),
        mirrored: has_text(key, "pumpjack"@),
        active: s.active && frame < s.active_frame + ACTIVE_FRAMES,
        tinted: s.is_player && 0 < s.player_color.a <= INFINITY,
        robot,
    }
}

fn part_draw(entry: &Entry, i: usize, frame: u64) -> (r: PartDraw)
    requires
        i < entry.model.parts@.len(),
    ensures
        r@ == part_draw_of(*entry, i as int, frame),
{
    let s: &EntityState = &entry.state;
    let yaw: YawSource = entry.model.parts[i].yaw;
    let robot: bool = is_robot(entry.model.parts[0].key.as_str());
    let key: String = if s.is_player {
        player_key(s.player_state).to_owned()
    } else {
        entry.model.parts[i].key.clone()
    };
    let extra: ExtraYaw = key_extra_yaw(
        key.as_str(),
        s.orientation.is_some() && yaw == YawSource::Direction,
    );
    let place: Place = if s.rocket.is_some() {
        Place::First
    } else if s.is_player || robot {
        Place::Smoothed
    } else {
        Place::Live
    };
    let mirrored: bool = contains(key.as_str(), "pumpjack");
    let fresh: bool = frame < s.active_frame || frame - s.active_frame < ACTIVE_FRAMES;
    PartDraw {
        key,
        base: base_yaw(yaw, s),
        extra,
        place,
        mirrored,
        active: s.active && fresh,
        tinted: s.is_player && 0 < s.player_color.a && s.player_color.a <= INFINITY,
        robot,
    }
}

/// How the parts of an entity's model are drawn, in their order.
pub fn entity_instances(entry: &Entry, frame: u64) -> (r: Vec<PartDraw>)
    ensures
        r@.len() == entry.model.parts@.len(),
        forall|i: int|
            0 <= i < r@.len() ==> (#[trigger] r@[i])@ == part_draw_of(*entry, i, frame),
{
    let mut out: Vec<PartDraw> = Vec::new();
    let mut i: usize = 0;
    while i < entry.model.parts.len()
        invariant
            i <= entry.model.parts.len(),
            out@.len() == i,
            forall|j: int|
                0 <= j < i ==> (#[trigger] out@[j])@ == part_draw_of(*entry, j, frame),
        decreases entry.model.parts.len() - i,
    {
        out.push(part_draw(entry, i, frame));
        i = i + 1;
    }
    out
}

/// A draw tells where an entity is, how it stands and what it looks like, and what
/// else is known of it stays. An unknown surface keeps the last; the frame counts as
/// one of change exactly where the fingerprint is another.
pub proof fn lemma_draw_is_noted(s: EntityState, r: Record, frame: u64)
    ensures
        ({
            let t = drawn_again(s, r, frame);
            &&& t.pos == r.pos && t.dir == r.dir && t.orientation == r.orientation && t.turret == r.turret
                && t.fingerprint == r.fingerprint
            &&& r.surface != 0 ==> t.surface == r.surface
            &&& r.surface == 0 ==> t.surface == s.surface
            &&& r.fingerprint != s.fingerprint ==> t.last_change == frame
            &&& r.fingerprint == s.fingerprint ==> t.last_change == s.last_change
            &&& t.first == s.first && t.first_seen == s.first_seen && t.is_player == s.is_player && t.rocket
                == s.rocket && t.active == s.active && t.active_frame == s.active_frame && t.morph == s.morph
                && t.prev == s.prev && t.arm_angle == s.arm_angle && t.anim_rate == s.anim_rate
                && t.player_state == s.player_state && t.player_color == s.player_color && t.last_move
                == s.last_move && t.last_shot == s.last_shot
        }),
{
}

/// An entity that was drawn elsewhere has moved by the difference, in the frames that
/// passed since it last moved, of which at most 120 count for its pace. One that moved
/// by more than half a tile per frame has jumped: it stands still at its new place.
/// One that did not move keeps its pace.
pub proof fn lemma_motion_is_noted(s: EntityState, r: Record, frame: u64)
    ensures
        ({
            let t = drawn_again(s, r, frame);
            let dx = r.pos.x - s.pos.x;
            let dy = r.pos.y - s.pos.y;
            let ax = if dx < 0 {
                -dx
            } else {
                dx
            };
            let ay = if dy < 0 {
                -dy
            } else {
                dy
            };
            let passed: int = if frame > s.pos_frame {
                frame - s.pos_frame
            } else {
                1
            };
            &&& dx == 0 && dy == 0 ==> t.motion == s.motion && t.pos_frame == s.pos_frame && t.interval
                == s.interval
            &&& dx != 0 || dy != 0 ==> t.pos_frame == frame
            &&& ax + ay > 128 * passed ==> t.motion.dx == 0 && t.motion.dy == 0 && t.motion.frames == 1
                && t.interval == s.interval
            &&& 0 < ax + ay <= 128 * passed ==> t.motion.dx == dx && t.motion.dy == dy && t.motion.frames
                == passed
            &&& 0 < ax + ay <= 128 * passed && passed <= 120 ==> t.interval == passed
            &&& 0 < ax + ay <= 128 * passed && passed > 120 ==> t.interval == 120
        }),
{
}

/// A new entity is where it was drawn, stands still, works at the usual pace and has
/// not changed yet. It is a player where its model is one of a player.
pub proof fn lemma_new_entity(m: Map<u64, Entry>, r: Record, model: EntityModelSpec, frame: u64)
    requires
        !m.contains_key(r.entity),
    ensures
        ({
            let s = known_before(m, r, model, frame);
            let t = drawn_again(s, r, frame);
            &&& t == s
            &&& t.pos == r.pos && t.prev == r.pos && t.first == r.pos && t.dir == r.dir && t.surface
                == r.surface && t.orientation == r.orientation && t.turret == r.turret
            &&& t.first_seen == frame && t.pos_frame == frame && t.last_change == 0 && t.last_move == 0
                && t.last_shot == 0 && t.interval == 0
            &&& t.motion.dx == 0 && t.motion.dy == 0 && t.active && t.anim_rate == 0x3F80_0000
            &&& t.rocket is None && t.arm_angle is None && t.morph is None
            &&& t.is_player == "ENTITIES/PLAYER/"@.is_prefix_of(model.parts[0].key)
        }),
{
    crate::text::lemma_prefix(model.parts[0].key, "ENTITIES/PLAYER/"@);
}

/// The sprite of an entity gives way to its model from the second frame after the one
/// in which it was first drawn, and only while every part of the model is loaded.
pub proof fn lemma_model_takes_over(
    m: Map<u64, Entry>,
    reg: Registry,
    model: EntityModelSpec,
    r: Record,
    frame: u64,
)
    ensures
        !m.contains_key(r.entity) ==> !takes_over(m, reg, model, r, frame),
        m.contains_key(r.entity) ==> (takes_over(m, reg, model, r, frame) <==> frame
            >= m[r.entity].state.first_seen + 2 && forall|i: int|
            0 <= i < model.parts.len() ==> ready(reg.loads(), (#[trigger] model.parts[i]).key) is Some),
{
}

/// An entity that connects is found on the tile that it stands on, a splitter on both
/// of its tiles, and what does not connect on none. Once it is gone none of these
/// tiles holds anything, and every other tile holds what it did.
pub proof fn lemma_tiles_of_entities(g: Map<Cell, Joint>, kind: ConnKind, pos: MapPos, dir: u8, c: Cell)
    ensures
        ({
            let (a, b) = splitter_at(pos, dir);
            let stands = kind != ConnKind::Plain && if kind == ConnKind::Splitter {
                c == a || c == b
            } else {
                c == cell_of(pos)
            };
            &&& stands ==> joint_at(grid_with(g, kind, pos, dir), c) == Some(Joint { kind, dir })
            &&& !stands ==> joint_at(grid_with(g, kind, pos, dir), c) == joint_at(g, c)
            &&& stands ==> joint_at(grid_without(g, kind, pos, dir), c) is None
            &&& !stands ==> joint_at(grid_without(g, kind, pos, dir), c) == joint_at(g, c)
        }),
{
}

proof fn lemma_counted_apart(rows: Seq<Entry>, surface: u64, n: int)
    requires
        0 <= n <= rows.len(),
    ensures
        on_surface(rows, surface, n) == rows.take(n).filter(|e: Entry| e.state.surface == surface).len(),
    decreases n,
{
    reveal(Seq::filter);
    if n > 0 {
        lemma_counted_apart(rows, surface, n - 1);
        assert(rows.take(n).drop_last() =~= rows.take(n - 1));
    } else {
        assert(rows.take(0) =~= Seq::<Entry>::empty());
    }
}

/// The main surface holds at least as many entities as any other, and one at least;
/// there is none exactly where no entity is on a known surface.
pub proof fn lemma_main_surface(rows: Seq<Entry>, surface: u64, other: u64)
    requires
        dominates(rows, surface),
        other != 0,
    ensures
        ({
            let there = |s: u64| rows.filter(|e: Entry| e.state.surface == s).len();
            &&& surface != 0 ==> there(surface) > 0 && there(other) <= there(surface)
            &&& surface == 0 ==> there(other) == 0
        }),
{
    let n = rows.len() as int;
    assert(rows.take(n) =~= rows);
    lemma_counted_apart(rows, surface, n);
    lemma_counted_apart(rows, other, n);
    assert(on_surface(rows, other, n) >= 0);
}

/// What was looked up is used for the next 29 frames, and looked up again in the
/// thirtieth or later.
pub proof fn lemma_when_looked_up(since: u64, frame: u64)
    ensures
        outdated(None, frame),
        outdated(Some(since), frame) <==> frame - since >= 30,
{
}

/// Wires are attached to what is called an electric pole, wherever it stands in the
/// key of its first part.
pub proof fn lemma_poles(e: &Entities, c: Cell, all: CellSet, poles: CellSet)
    requires
        e.wf(),
        call_ensures(entity_cells, (e, false), all),
        call_ensures(entity_cells, (e, true), poles),
    ensures
        all@.contains(c) <==> exists|k: u64| #[trigger]
            e.entries@.contains_key(k) && e.entries@[k].state.pos.x as int / 256 == c.x
                && e.entries@[k].state.pos.y as int / 256 == c.y,
        poles@.contains(c) <==> exists|k: u64| #[trigger]
            e.entries@.contains_key(k) && has_text(e.entries@[k].model.parts@[0].key@, "electric-pole"@)
                && e.entries@[k].state.pos.x as int / 256 == c.x && e.entries@[k].state.pos.y as int / 256 == c.y,
{
    let m = e.entries@;
    if stands_on(m, false, c) {
        let k = choose|k: u64| #[trigger] m.contains_key(k) && cell_of(m[k].state.pos) == c;
        assert(m.contains_key(k));
    }
    if stands_on(m, true, c) {
        let k = choose|k: u64| #[trigger] m.contains_key(k) && is_pole(m[k]) && cell_of(m[k].state.pos) == c;
        assert(m.contains_key(k) && is_pole(m[k]));
    }
    if exists|k: u64| #[trigger]
        m.contains_key(k) && m[k].state.pos.x as int / 256 == c.x && m[k].state.pos.y as int / 256 == c.y {
        let k = choose|k: u64| #[trigger]
            m.contains_key(k) && m[k].state.pos.x as int / 256 == c.x && m[k].state.pos.y as int / 256 == c.y;
        assert(m.contains_key(k) && cell_of(m[k].state.pos) == c);
    }
    if exists|k: u64| #[trigger]
        m.contains_key(k) && has_text(m[k].model.parts@[0].key@, "electric-pole"@) && m[k].state.pos.x as int
            / 256 == c.x && m[k].state.pos.y as int / 256 == c.y {
        let k = choose|k: u64| #[trigger]
            m.contains_key(k) && has_text(m[k].model.parts@[0].key@, "electric-pole"@) && m[k].state.pos.x as int
                / 256 == c.x && m[k].state.pos.y as int / 256 == c.y;
        assert(m.contains_key(k) && is_pole(m[k]) && cell_of(m[k].state.pos) == c);
    }
}

proof fn lemma_ghost_found(s: Seq<GhostSpec>, key: Seq<char>, pos: MapPos)
    ensures
        ghost_at(s, key, pos) matches Some(i) ==> 0 <= i < s.len() && s[i].model.parts[0].key == key && s[i].pos
            == pos,
        ghost_at(s, key, pos) is None ==> forall|i: int|
            0 <= i < s.len() ==> (#[trigger] s[i]).model.parts[0].key != key || s[i].pos != pos,
    decreases s.len(),
{
    if s.len() > 0 {
        lemma_ghost_found(s.drop_last(), key, pos);
        assert forall|i: int| 0 <= i < s.len() && ghost_at(s, key, pos) is None implies (
        #[trigger] s[i]).model.parts[0].key != key || s[i].pos != pos by {
            if i < s.len() - 1 {
                assert(s.drop_last()[i] == s[i]);
            }
        }
    }
}

/// A ghost is noted once for its model and place, with the direction of its last
/// draw; the first one of a frame drives those of earlier frames out, and no more
/// than 256 are kept.
pub proof fn lemma_ghosts(s: Seq<GhostSpec>, g: GhostSpec, i: int)
    ensures
        ({
            let r = with_ghost(s, g);
            let old_ones = s.len() > 0 && s[0].frame != g.frame;
            let same = |o: GhostSpec| o.model.parts[0].key == g.model.parts[0].key && o.pos == g.pos;
            let there = !old_ones && exists|k: int| 0 <= k < s.len() && same(#[trigger] s[k]);
            &&& old_ones ==> r == seq![g]
            &&& !old_ones && !there && s.len() < 256 ==> r == s.push(g)
            &&& !old_ones && !there && s.len() >= 256 ==> r == s
            &&& there ==> r.len() == s.len() && exists|k: int|
                0 <= k < r.len() && same(#[trigger] r[k]) && r[k].dir == g.dir && r[k].frame == g.frame
            &&& there && 0 <= i < s.len() && !same(s[i]) ==> r[i] == s[i]
        }),
{
    let base = if s.len() > 0 && s[0].frame != g.frame {
        Seq::empty()
    } else {
        s
    };
    lemma_ghost_found(base, g.model.parts[0].key, g.pos);
    let r = with_ghost(s, g);
    match ghost_at(base, g.model.parts[0].key, g.pos) {
        Some(k) => {
            assert(r[k].dir == g.dir);
        },
        None => {
            assert(s.len() > 0 && s[0].frame != g.frame ==> r =~= seq![g]);
        },
    }
}

/// What a player is seen to do: a player who mined in the last frames mines, one who
/// shot in the last frames shoots, running or standing, and one who moved in the last
/// eight frames runs; otherwise the player stands idle.
pub proof fn lemma_what_a_player_does(s: EntityState, g: Map<Cell, Joint>, frame: u64, mining: u64, w: PoseWindows)
    ensures
        ({
            let t = player_tick(s, g, frame, mining, w);
            let a = player_after(s, t, frame);
            let dx = s.pos.x - s.prev.x;
            let dy = s.pos.y - s.prev.y;
            let step = (dx != 0 || dy != 0) && dx * dx + dy * dy < 1_638_400;
            let last = if step {
                frame
            } else {
                s.last_move
            };
            let mines = mining != 0 && frame <= mining + w.mine;
            let shoots = s.last_shot != 0 && frame <= s.last_shot + w.shoot;
            let runs = frame <= last + 8;
            &&& t.stepped == step
            &&& a.last_move == last && a.prev == s.pos && a.pos == s.pos && a.player_state == t.pose
            &&& mines ==> t.pose == 4
            &&& !mines && shoots && runs ==> t.pose == 2
            &&& !mines && shoots && !runs ==> t.pose == 3
            &&& !mines && !shoots && runs ==> t.pose == 1
            &&& !mines && !shoots && !runs ==> t.pose == 0
            &&& t.restarted == (t.pose != s.player_state)
            &&& t.on_belt <==> (joint_at(g, cell_of(s.pos)) matches Some(j) && (j.kind == ConnKind::Belt
                || j.kind == ConnKind::Under || j.kind == ConnKind::Splitter))
        }),
{
}

/// A machine works for the eight frames after its fingerprint changed, and a dish
/// goes on turning for fewer than fifteen.
pub proof fn lemma_at_work(entry: &Entry, frame: u64, working: bool, spins: bool)
    requires
        call_ensures(is_working, (&entry.state, frame), working),
        call_ensures(advances_spin, (entry, frame), spins),
    ensures
        working <==> entry.state.last_change > 0 && frame <= entry.state.last_change + 8,
        spins <==> frame - entry.state.last_change < 15 && exists|i: int|
            0 <= i < entry.model.parts@.len() && (#[trigger] entry.model.parts@[i]).yaw == YawSource::Spin,
{
}

/// Each part of an entity is drawn, in its order, with its own key; only a player is
/// drawn with that of the pose. It turns as the part says: by the orientation where
/// there is one, otherwise by the direction, with the dish, or not at all.
pub proof fn lemma_parts_are_drawn(entry: &Entry, frame: u64, r: Vec<PartDraw>, i: int)
    requires
        call_ensures(entity_instances, (entry, frame), r),
        0 <= i < entry.model.parts@.len(),
    ensures
        ({
            let s = entry.state;
            let p = entry.model.parts@[i];
            let d = r@[i];
            let robot = has_text(entry.model.parts@[0].key@, "construction-robot"@) || has_text(
                entry.model.parts@[0].key@,
                "logistic-robot"@,
            );
            &&& r@.len() == entry.model.parts@.len()
            &&& !s.is_player ==> d.key@ == p.key@
            &&& s.is_player ==> d.key@ == player_key_of(s.player_state as int)
            &&& p.yaw == YawSource::Direction ==> d.base == (match s.orientation {
                Some(o) => BaseYaw::Orientation(o),
                None => BaseYaw::Direction(s.dir),
            })
            &&& p.yaw == YawSource::Orientation ==> d.base == (match s.orientation {
                Some(o) => BaseYaw::Orientation(o),
                None => BaseYaw::Zero,
            })
            &&& p.yaw == YawSource::Fixed ==> d.base == BaseYaw::Zero
            &&& p.yaw == YawSource::Spin ==> d.base == BaseYaw::Spin
            &&& d.robot == robot
            &&& s.rocket is Some ==> d.place == Place::First
            &&& s.rocket is None && (s.is_player || robot) ==> d.place == Place::Smoothed
            &&& s.rocket is None && !s.is_player && !robot ==> d.place == Place::Live
            &&& d.mirrored == has_text(d.key@, "pumpjack"@)
            &&& d.active == (s.active && frame - s.active_frame < 30)
            &&& d.tinted == (s.is_player && 0 < s.player_color.a <= 0x7F80_0000)
        }),
{
    assert(r@[i]@ == part_draw_of(*entry, i, frame));
}

/// Every model whose key names one of these is turned by its own setting, the first
/// of them that it names; any other only where it is oriented.
pub proof fn lemma_settings_by_key(key: &str, oriented: bool, r: ExtraYaw)
    requires
        call_ensures(key_extra_yaw, (key, oriented), r),
    ensures
        ({
            let k = key@;
            let under = has_text(k, "underground-belt"@);
            let splitter = has_text(k, "splitter"@);
            let head = has_text(k, "gun-turret/static2"@);
            let tank = has_text(k, "VEHICLES/tank/"@);
            let car = has_text(k, "VEHICLES/car/"@);
            let biter = has_text(k, "ENEMIES/biters"@);
            let player = has_text(k, "ENTITIES/PLAYER"@);
            &&& r == ExtraYaw::Under <==> under
            &&& r == ExtraYaw::Splitter <==> splitter && !under
            &&& r == ExtraYaw::TurretHead <==> head && !under && !splitter
            &&& r == ExtraYaw::Tank <==> tank && !under && !splitter && !head
            &&& r == ExtraYaw::Car <==> car && !under && !splitter && !head && !tank
            &&& r == ExtraYaw::Biter <==> biter && !under && !splitter && !head && !tank && !car
            &&& r == ExtraYaw::Player <==> player && !under && !splitter && !head && !tank && !car && !biter
            &&& !under && !splitter && !head && !tank && !car && !biter && !player ==> r == if oriented {
                ExtraYaw::Vehicle
            } else {
                ExtraYaw::Zero
            }
        }),
{
}

} // verus!
