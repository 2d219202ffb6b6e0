//! How belts, pipes and walls are put together from models: which model, how it
//! is turned, and which half of it is drawn.

use crate::grid::{
    belt_curve, cell_at, cell_of, corner_of, corner_quarter, curve_of, exit_of,
    fork_of, fork_quarter, is_exit, neighbor_mask, sides_of, splitter_at, splitter_cells,
    straight_of, straight_yaw, Cell, CellSet, Curve, Grid, Joint, Sides,
};
use crate::hooks::MapPos;
use crate::models::{
    belt_corner_key, knows_variant, optional_key, variant, ConnKind, Disk, DiskSpec, Registry, Shelf,
};
use crate::text::{join2, replace_of};
use vstd::prelude::*;

verus! {

/// The setting that adds to the turn of a model.
#[derive(Clone, Copy, PartialEq, Eq, Structural, Debug)]
pub enum YawKnob {
    Pipe,
    Wall,
    /// The corner of a pipe, which the setting of pipes turns as well.
    PipeCorner,
    BeltStraight,
    BeltCurved,
    Under,
    Gate,
    Splitter,
    PipeToGround,
}

/// The setting that lifts a model.
#[derive(Clone, Copy, PartialEq, Eq, Structural, Debug)]
pub enum LiftKnob {
    Ground,
    Heat,
    Pipe,
    PipeCorner,
}

/// A model that is placed for an entity, or a half of it.
#[derive(Debug)]
pub struct Piece {
    pub key: String,
    /// Its turn, in sixteenths.
    pub turn: u16,
    pub yaw: YawKnob,
    pub lift: LiftKnob,
    pub mirror: bool,
    /// The side whose half is drawn; none where all of it is.
    pub half: Option<u8>,
    /// A corner that is made of a pipe laid on its side, and the quarter turns
    /// of its offset.
    pub elbow: Option<u8>,
}

/// What a `Piece` holds.
pub ghost struct PieceSpec {
    pub key: Seq<char>,
    pub turn: int,
    pub yaw: YawKnob,
    pub lift: LiftKnob,
    pub mirror: bool,
    pub half: Option<u8>,
    pub elbow: Option<u8>,
}

impl View for Piece {
    type V = PieceSpec;

    open spec fn view(&self) -> PieceSpec {
        PieceSpec {
            key: self.key@,
            turn: self.turn as int,
            yaw: self.yaw,
            lift: self.lift,
            mirror: self.mirror,
            half: self.half,
            elbow: self.elbow,
        }
    }
}

pub open spec fn piece_views(v: Seq<Piece>) -> Seq<PieceSpec> {
    v.map_values(|p: Piece| p@)
}

/// All of a model.
pub open spec fn whole(key: Seq<char>, turn: int, yaw: YawKnob, lift: LiftKnob) -> PieceSpec {
    PieceSpec { key, turn, yaw, lift, mirror: false, half: None, elbow: None }
}

fn whole_piece(key: String, turn: u16, yaw: YawKnob, lift: LiftKnob) -> (r: Piece)
    ensures
        r@ == whole(key@, turn as int, yaw, lift),
{
    Piece { key, turn, yaw, lift, mirror: false, half: None, elbow: None }
}

/// How a junction is drawn.
#[derive(Debug)]
pub enum Junction {
    /// The straight model, with its quarter turns.
    Straight(u8),
    /// A model of its own, with its quarter turns.
    Model(String, u8),
    /// Halves of the straight model, one for each side.
    Halves,
}

/// What a `Junction` says.
pub ghost enum JunctionSpec {
    Straight(u8),
    Model(Seq<char>, u8),
    Halves,
}

impl View for Junction {
    type V = JunctionSpec;

    open spec fn view(&self) -> JunctionSpec {
        match self {
            Junction::Straight(q) => JunctionSpec::Straight(*q),
            Junction::Model(k, q) => JunctionSpec::Model(k@, *q),
            Junction::Halves => JunctionSpec::Halves,
        }
    }
}

/// The model of a junction, where there is a file of it, and what is remembered
/// after the question.
pub open spec fn own_model(s: Shelf, d: DiskSpec, key: Seq<char>, quarter: u8) -> (
    JunctionSpec,
    Shelf,
) {
    let (there, after) = variant(s, d, key);
    (
        if there {
            JunctionSpec::Model(key, quarter)
        } else {
            JunctionSpec::Halves
        },
        after,
    )
}

/// The file of a junction's own model.
pub open spec fn own_file(folder: Seq<char>, s: Sides) -> Seq<char> {
    if s.count() == 2 {
        folder + "/corner.glb"@
    } else if s.count() == 3 {
        folder + "/t.glb"@
    } else {
        folder + "/cross.glb"@
    }
}

/// How a junction is drawn: straight runs, and otherwise a model of its own
/// where there is one.
pub open spec fn junction_of(shelf: Shelf, d: DiskSpec, folder: Seq<char>, s: Sides) -> (
    JunctionSpec,
    Shelf,
) {
    if straight_of(s) is Some {
        (JunctionSpec::Straight(straight_of(s)->0), shelf)
    } else {
        own_model(
            shelf,
            d,
            own_file(folder, s),
            if s.count() == 2 {
                corner_of(s)
            } else if s.count() == 3 {
                fork_of(s)
            } else {
                0
            },
        )
    }
}

fn file_of(folder: &str, s: &Sides) -> (r: String)
    ensures
        r@ == own_file(folder@, *s),
{
    let n: u8 = s.len();
    if n == 2 {
        join2(folder, "/corner.glb")
    } else if n == 3 {
        join2(folder, "/t.glb")
    } else {
        join2(folder, "/cross.glb")
    }
}

/// How a junction is drawn.
pub fn junction_variant(reg: &mut Registry, disk: &Disk, folder: &str, s: &Sides) -> (r: Junction)
    requires
        old(reg).wf(),
    ensures
        final(reg).wf(),
        final(reg).loads() == old(reg).loads(),
        (r@, final(reg).shelf()) == junction_of(old(reg).shelf(), disk@, folder@, *s),
{
    match straight_yaw(s) {
        Some(q) => {
            return Junction::Straight(q);
        },
        None => {},
    }
    let n: u8 = s.len();
    let quarter: u8 = if n == 2 {
        corner_quarter(s)
    } else if n == 3 {
        fork_quarter(s)
    } else {
        0
    };
    let key: String = file_of(folder, s);
    match optional_key(reg, disk, key.as_str()) {
        Some(k) => Junction::Model(k, quarter),
        None => Junction::Halves,
    }
}

/// The folder of the models of a kind.
pub open spec fn folder_of(kind: ConnKind) -> Seq<char> {
    if kind == ConnKind::Pipe {
        "ENTITIES/STRUCTURES/pipes"@
    } else if kind == ConnKind::Heat {
        "ENTITIES/STRUCTURES/heat-pipe"@
    } else {
        "ENTITIES/STRUCTURES/stone-wall"@
    }
}

/// The sixteenths by which the straight model of a kind lies across: walls lie
/// from west to east, pipes from north to south.
pub open spec fn across(kind: ConnKind) -> int {
    if kind == ConnKind::Pipe || kind == ConnKind::Heat {
        0
    } else {
        4
    }
}

pub open spec fn kind_yaw(kind: ConnKind) -> YawKnob {
    if kind == ConnKind::Pipe || kind == ConnKind::Heat {
        YawKnob::Pipe
    } else {
        YawKnob::Wall
    }
}

pub open spec fn kind_lift(kind: ConnKind) -> LiftKnob {
    if kind == ConnKind::Wall {
        LiftKnob::Ground
    } else if kind == ConnKind::Heat {
        LiftKnob::Heat
    } else {
        LiftKnob::Pipe
    }
}

/// The half of the straight model on one side.
pub open spec fn half_piece(kind: ConnKind, straight: Seq<char>, k: int) -> PieceSpec {
    PieceSpec {
        half: Some(k as u8),
        ..whole(straight, k % 2 * 4 + across(kind), kind_yaw(kind), kind_lift(kind))
    }
}

/// The halves of the straight model, for the first `n` cardinals.
pub open spec fn halves(kind: ConnKind, straight: Seq<char>, s: Sides, n: int) -> Seq<PieceSpec>
    decreases n,
{
    if n <= 0 {
        Seq::empty()
    } else {
        let before = halves(kind, straight, s, n - 1);
        if s.side(n - 1) {
            before.push(half_piece(kind, straight, n - 1))
        } else {
            before
        }
    }
}

/// The corner of a pipe: the model that leads into the ground, laid on its side.
pub open spec fn elbow_piece(quarter: u8) -> PieceSpec {
    PieceSpec {
        elbow: Some(quarter),
        ..whole(
            "ENTITIES/STRUCTURES/pipes/pipe-to-ground.glb"@,
            quarter * 4,
            YawKnob::PipeCorner,
            LiftKnob::PipeCorner,
        )
    }
}

/// The pieces of a pipe or a wall, by how its junction is drawn.
pub open spec fn drawn_as(j: JunctionSpec, kind: ConnKind, straight: Seq<char>, s: Sides) -> Seq<
    PieceSpec,
> {
    match j {
        JunctionSpec::Straight(q) => seq![
            whole(straight, q * 4 + across(kind), kind_yaw(kind), kind_lift(kind)),
        ],
        JunctionSpec::Model(key, q) => seq![whole(key, q * 4, kind_yaw(kind), kind_lift(kind))],
        JunctionSpec::Halves => if kind == ConnKind::Pipe && s.count() == 2 {
            seq![elbow_piece(corner_of(s))]
        } else {
            halves(kind, straight, s, 4)
        },
    }
}

/// The pieces of a pipe or a wall, and what is remembered after the question for
/// its own model.
pub open spec fn junction_pieces_of(
    shelf: Shelf,
    d: DiskSpec,
    kind: ConnKind,
    straight: Seq<char>,
    s: Sides,
) -> (Seq<PieceSpec>, Shelf) {
    let (j, after) = junction_of(shelf, d, folder_of(kind), s);
    (drawn_as(j, kind, straight, s), after)
}

/// The folder of the models of a kind.
fn kind_folder(kind: ConnKind) -> (r: &'static str)
    ensures
        r@ == folder_of(kind),
{
    match kind {
        ConnKind::Pipe => "ENTITIES/STRUCTURES/pipes",
        ConnKind::Heat => "ENTITIES/STRUCTURES/heat-pipe",
        _ => "ENTITIES/STRUCTURES/stone-wall",
    }
}

/// The pieces of a pipe or a wall, by the sides on which it is connected.
pub fn junction_pieces(
    reg: &mut Registry,
    disk: &Disk,
    kind: ConnKind,
    straight: &str,
    s: &Sides,
) -> (r: Vec<Piece>)
    requires
        old(reg).wf(),
    ensures
        final(reg).wf(),
        final(reg).loads() == old(reg).loads(),
        (piece_views(r@), final(reg).shelf()) == junction_pieces_of(
            old(reg).shelf(),
            disk@,
            kind,
            straight@,
            *s,
        ),
{
    let piped: bool = kind == ConnKind::Pipe || kind == ConnKind::Heat;
    let axis: u16 = if piped {
        0
    } else {
        4
    };
    let yaw: YawKnob = if piped {
        YawKnob::Pipe
    } else {
        YawKnob::Wall
    };
    let lift: LiftKnob = match kind {
        ConnKind::Wall => LiftKnob::Ground,
        ConnKind::Heat => LiftKnob::Heat,
        _ => LiftKnob::Pipe,
    };
    let mut pieces: Vec<Piece> = Vec::new();
    let j: Junction = junction_variant(reg, disk, kind_folder(kind), s);
    let ghost jv = j@;
    match j {
        Junction::Straight(q) => {
            assert(q < 2);
            pieces.push(whole_piece(straight.to_owned(), q as u16 * 4 + axis, yaw, lift));
            assert(piece_views(pieces@) =~= drawn_as(jv, kind, straight@, *s));
        },
        Junction::Model(key, q) => {
            assert(q < 4);
            pieces.push(whole_piece(key, q as u16 * 4, yaw, lift));
            assert(piece_views(pieces@) =~= drawn_as(jv, kind, straight@, *s));
        },
        Junction::Halves => {
            if kind == ConnKind::Pipe && s.len() == 2 {
                let quarter: u8 = corner_quarter(s);
                pieces.push(
                    Piece {
                        key: "ENTITIES/STRUCTURES/pipes/pipe-to-ground.glb".to_owned(),
                        turn: quarter as u16 * 4,
                        yaw: YawKnob::PipeCorner,
                        lift: LiftKnob::PipeCorner,
                        mirror: false,
                        half: None,
                        elbow: Some(quarter),
                    },
                );
                assert(piece_views(pieces@) =~= drawn_as(jv, kind, straight@, *s));
            } else {
                let mut k: u8 = 0;
                assert(piece_views(pieces@) =~= halves(kind, straight@, *s, 0));
                while k < 4
                    invariant
                        k <= 4,
                        axis == across(kind),
                        yaw == kind_yaw(kind),
                        lift == kind_lift(kind),
                        piece_views(pieces@) == halves(kind, straight@, *s, k as int),
                    decreases 4 - k,
                {
                    let ghost before = pieces@;
                    if s.has_side(k) {
                        pieces.push(
                            Piece {
                                key: straight.to_owned(),
                                turn: (k % 2) as u16 * 4 + axis,
                                yaw,
                                lift,
                                mirror: false,
                                half: Some(k),
                                elbow: None,
                            },
                        );
                        assert(piece_views(pieces@) =~= piece_views(before).push(
                            half_piece(kind, straight@, k as int),
                        ));
                    }
                    k = k + 1;
                }
            }
        },
    }
    pieces
}

proof fn lemma_halves_len(kind: ConnKind, straight: Seq<char>, s: Sides)
    ensures
        halves(kind, straight, s, 4).len() == s.count(),
{
    reveal_with_fuel(halves, 5);
}

/// Every pipe and every wall is drawn, whatever models there are, and a junction
/// that is made of halves has one for each of its sides.
pub proof fn lemma_junctions_show(
    shelf: Shelf,
    d: DiskSpec,
    kind: ConnKind,
    straight: Seq<char>,
    s: Sides,
)
    ensures
        junction_pieces_of(shelf, d, kind, straight, s).0.len() > 0,
        ({
            let r = junction_pieces_of(shelf, d, kind, straight, s).0;
            r[0].half is Some ==> r.len() == s.count()
        }),
{
    lemma_halves_len(kind, straight, s);
}

/// Which part of a texture runs along.
#[derive(Clone, Copy, PartialEq, Eq, Structural, Debug)]
pub enum Scroll {
    Still,
    Belt,
    Splitter,
}

/// An entity that connects to its neighbours.
pub struct Connectable<'a> {
    pub kind: ConnKind,
    pub key: &'a str,
    pub pos: MapPos,
    pub dir: u8,
}

/// The pieces of an entity that connects to its neighbours, and what is remembered
/// after them. `swap` exchanges the two curves of a belt.
pub open spec fn pieces_of(
    shelf: Shelf,
    d: DiskSpec,
    g: Map<Cell, Joint>,
    kind: ConnKind,
    key: Seq<char>,
    pos: MapPos,
    dir: u8,
    swap: bool,
) -> (Seq<PieceSpec>, Shelf) {
    if by_sides(kind) {
        junction_pieces_of(shelf, d, kind, key, sides_of(g, cell_of(pos), kind))
    } else {
        (single_piece(g, kind, key, pos, dir, swap), shelf)
    }
}

/// Pipes and walls go by the sides on which they are connected.
pub open spec fn by_sides(kind: ConnKind) -> bool {
    kind == ConnKind::Pipe || kind == ConnKind::Heat || kind == ConnKind::Wall
}

/// The piece of an entity that has one.
pub open spec fn single_piece(
    g: Map<Cell, Joint>,
    kind: ConnKind,
    key: Seq<char>,
    pos: MapPos,
    dir: u8,
    swap: bool,
) -> Seq<PieceSpec> {
    let c = cell_of(pos);
    if kind == ConnKind::Belt {
        let curve = curve_of(g, c, dir);
        if curve == Curve::Straight {
            seq![whole(key, dir as int, YawKnob::BeltStraight, LiftKnob::Ground)]
        } else {
            seq![
                PieceSpec {
                    mirror: (curve == Curve::Left) != swap,
                    ..whole(
                        replace_of(key, "belt-I.glb"@, "belt-L.glb"@),
                        dir as int,
                        YawKnob::BeltCurved,
                        LiftKnob::Ground,
                    )
                },
            ]
        }
    } else if kind == ConnKind::Under {
        seq![
            whole(
                key,
                dir + (if exit_of(g, c, dir) {
                    8int
                } else {
                    0
                }),
                YawKnob::Under,
                LiftKnob::Ground,
            ),
        ]
    } else if kind == ConnKind::Gate {
        seq![whole(key, dir as int, YawKnob::Gate, LiftKnob::Ground)]
    } else if kind == ConnKind::Splitter {
        seq![whole(key, dir as int, YawKnob::Splitter, LiftKnob::Ground)]
    } else {
        seq![whole(key, dir as int, YawKnob::PipeToGround, LiftKnob::Ground)]
    }
}

/// What runs along on an entity: the treads of belts, and those of a splitter
/// while an item rides on it.
pub open spec fn scroll_of(kind: ConnKind, pos: MapPos, dir: u8, items: Set<Cell>) -> Scroll {
    if kind == ConnKind::Belt {
        Scroll::Belt
    } else if kind == ConnKind::Splitter && (items.contains(splitter_at(pos, dir).0)
        || items.contains(splitter_at(pos, dir).1)) {
        Scroll::Splitter
    } else {
        Scroll::Still
    }
}

fn belt_piece(key: &str, curve: Curve, dir: u8, swap: bool) -> (r: Piece)
    ensures
        r@ == if curve == Curve::Straight {
            whole(key@, dir as int, YawKnob::BeltStraight, LiftKnob::Ground)
        } else {
            PieceSpec {
                mirror: (curve == Curve::Left) != swap,
                ..whole(
                    replace_of(key@, "belt-I.glb"@, "belt-L.glb"@),
                    dir as int,
                    YawKnob::BeltCurved,
                    LiftKnob::Ground,
                )
            }
        },
{
    if curve == Curve::Straight {
        whole_piece(key.to_owned(), dir as u16, YawKnob::BeltStraight, LiftKnob::Ground)
    } else {
        Piece {
            key: belt_corner_key(key),
            turn: dir as u16,
            yaw: YawKnob::BeltCurved,
            lift: LiftKnob::Ground,
            mirror: (curve == Curve::Left) != swap,
            half: None,
            elbow: None,
        }
    }
}

/// Whether the pieces of an entity depend on a question that the disk has yet to
/// answer.
pub fn asks_disk(reg: &Registry, grid: &Grid, e: &Connectable) -> (r: bool)
    requires
        reg.wf(),
        grid.wf(),
    ensures
        r == ({
            let s = sides_of(grid@, cell_of(e.pos), e.kind);
            by_sides(e.kind) && straight_of(s) is None && !reg.shelf().variants.contains_key(
                own_file(folder_of(e.kind), s),
            )
        }),
{
    match e.kind {
        ConnKind::Pipe | ConnKind::Heat | ConnKind::Wall => {
            let s: Sides = neighbor_mask(grid, cell_at(e.pos), e.kind);
            let file: String = file_of(kind_folder(e.kind), &s);
            straight_yaw(&s).is_none() && !knows_variant(reg, file.as_str())
        },
        _ => false,
    }
}

/// Where the disk is not asked, what is on it changes nothing.
pub proof fn lemma_unasked(
    shelf: Shelf,
    g: Map<Cell, Joint>,
    kind: ConnKind,
    key: Seq<char>,
    pos: MapPos,
    dir: u8,
    swap: bool,
    d: DiskSpec,
    other: DiskSpec,
)
    requires
        ({
            let s = sides_of(g, cell_of(pos), kind);
            !by_sides(kind) || straight_of(s) is Some || shelf.variants.contains_key(
                own_file(folder_of(kind), s),
            )
        }),
    ensures
        pieces_of(shelf, d, g, kind, key, pos, dir, swap) == pieces_of(
            shelf,
            other,
            g,
            kind,
            key,
            pos,
            dir,
            swap,
        ),
        pieces_of(shelf, d, g, kind, key, pos, dir, swap).1 == shelf,
{
}

/// A pipe or a wall that is connected on no side, or on sides that face each other,
/// is its straight model, laid along them: from north to south it is turned by
/// nothing for pipes and by a quarter for walls, whose model lies across, and from
/// west to east by a quarter more. No file is asked for.
pub proof fn lemma_straight_runs(
    shelf: Shelf,
    d: DiskSpec,
    kind: ConnKind,
    straight: Seq<char>,
    s: Sides,
)
    requires
        kind == ConnKind::Pipe || kind == ConnKind::Heat || kind == ConnKind::Wall,
        (!s.east && !s.west) || (!s.north && !s.south),
    ensures
        ({
            let (r, after) = junction_pieces_of(shelf, d, kind, straight, s);
            let p = r[0];
            let along: int = if !s.east && !s.west {
                0
            } else {
                4
            };
            &&& r.len() == 1
            &&& after == shelf
            &&& p.key == straight
            &&& kind != ConnKind::Wall ==> p.turn == along && p.yaw == YawKnob::Pipe
            &&& kind == ConnKind::Wall ==> p.turn == along + 4 && p.yaw == YawKnob::Wall
            &&& kind == ConnKind::Pipe ==> p.lift == LiftKnob::Pipe
            &&& kind == ConnKind::Heat ==> p.lift == LiftKnob::Heat
            &&& kind == ConnKind::Wall ==> p.lift == LiftKnob::Ground
            &&& !p.mirror && p.half is None && p.elbow is None
        }),
{
}

/// A pipe or a wall that is connected around a corner or on three or more sides is a
/// model of its own where its file is known or on disk: by the number of sides it is
/// the corner, the fork or the crossing of its kind. It is turned from the corner
/// between north and east, or from the fork that is open in the north, clockwise.
pub proof fn lemma_junction_models(
    shelf: Shelf,
    d: DiskSpec,
    kind: ConnKind,
    straight: Seq<char>,
    s: Sides,
)
    requires
        kind == ConnKind::Pipe || kind == ConnKind::Heat || kind == ConnKind::Wall,
        s.east || s.west,
        s.north || s.south,
    ensures
        ({
            let (r, after) = junction_pieces_of(shelf, d, kind, straight, s);
            let folder = if kind == ConnKind::Pipe {
                "ENTITIES/STRUCTURES/pipes"@
            } else if kind == ConnKind::Heat {
                "ENTITIES/STRUCTURES/heat-pipe"@
            } else {
                "ENTITIES/STRUCTURES/stone-wall"@
            };
            let all = s.north && s.east && s.south && s.west;
            let three = !all && ((s.north && s.south) || (s.east && s.west));
            let file = if all {
                folder + "/cross.glb"@
            } else if three {
                folder + "/t.glb"@
            } else {
                folder + "/corner.glb"@
            };
            let there = variant(shelf, d, file).0;
            &&& after == variant(shelf, d, file).1
            &&& there ==> r.len() == 1 && r[0].key == file && r[0].half is None && r[0].elbow is None
                && !r[0].mirror
            &&& there && all ==> r[0].turn == 0
            &&& there && three && !s.north ==> r[0].turn == 0
            &&& there && three && !s.east ==> r[0].turn == 4
            &&& there && three && !s.south ==> r[0].turn == 8
            &&& there && three && !s.west ==> r[0].turn == 12
            &&& there && !all && !three && s.north && s.east ==> r[0].turn == 0
            &&& there && !all && !three && s.east && s.south ==> r[0].turn == 4
            &&& there && !all && !three && s.south && s.west ==> r[0].turn == 8
            &&& there && !all && !three && s.west && s.north ==> r[0].turn == 12
        }),
{
}

/// Without a file of its own, a corner of pipes is a pipe into the ground that is
/// laid on its side, turned from the corner between north and east. Any other
/// junction is made of halves of the straight model: one for each side that is
/// connected, and for no other, each laid along its own side.
pub proof fn lemma_junction_halves(
    shelf: Shelf,
    d: DiskSpec,
    kind: ConnKind,
    straight: Seq<char>,
    s: Sides,
)
    requires
        kind == ConnKind::Pipe || kind == ConnKind::Heat || kind == ConnKind::Wall,
        s.east || s.west,
        s.north || s.south,
        !variant(shelf, d, own_file(folder_of(kind), s)).0,
    ensures
        ({
            let r = junction_pieces_of(shelf, d, kind, straight, s).0;
            let corner = !(s.north && s.south) && !(s.east && s.west);
            let across: int = if kind == ConnKind::Wall {
                4
            } else {
                0
            };
            &&& kind == ConnKind::Pipe && corner ==> {
                &&& r.len() == 1
                &&& r[0].key == "ENTITIES/STRUCTURES/pipes/pipe-to-ground.glb"@
                &&& r[0].yaw == YawKnob::PipeCorner && r[0].lift == LiftKnob::PipeCorner
                &&& r[0].half is None && !r[0].mirror
                &&& s.north && s.east ==> r[0].turn == 0 && r[0].elbow == Some(0u8)
                &&& s.east && s.south ==> r[0].turn == 4 && r[0].elbow == Some(1u8)
                &&& s.south && s.west ==> r[0].turn == 8 && r[0].elbow == Some(2u8)
                &&& s.west && s.north ==> r[0].turn == 12 && r[0].elbow == Some(3u8)
            }
            &&& !(kind == ConnKind::Pipe && corner) ==> {
                &&& forall|k: int| 0 <= k < r.len() ==> {
                    let p = #[trigger] r[k];
                    &&& p.key == straight && !p.mirror && p.elbow is None
                    &&& (p.half == Some(0u8) && s.north && p.turn == across) || (p.half == Some(1u8)
                        && s.east && p.turn == across + 4) || (p.half == Some(2u8) && s.south && p.turn
                        == across) || (p.half == Some(3u8) && s.west && p.turn == across + 4)
                }
                &&& s.north ==> exists|k: int| 0 <= k < r.len() && (#[trigger] r[k]).half == Some(0u8)
                &&& s.east ==> exists|k: int| 0 <= k < r.len() && (#[trigger] r[k]).half == Some(1u8)
                &&& s.south ==> exists|k: int| 0 <= k < r.len() && (#[trigger] r[k]).half == Some(2u8)
                &&& s.west ==> exists|k: int| 0 <= k < r.len() && (#[trigger] r[k]).half == Some(3u8)
                &&& forall|a: int, b: int|
                    0 <= a < b < r.len() ==> (#[trigger] r[a]).half != (#[trigger] r[b]).half
            }
        }),
{
    let r = junction_pieces_of(shelf, d, kind, straight, s).0;
    if !(kind == ConnKind::Pipe && s.count() == 2) {
        lemma_halves_len(kind, straight, s);
        let h0 = halves(kind, straight, s, 0);
        let h1 = halves(kind, straight, s, 1);
        let h2 = halves(kind, straight, s, 2);
        let h3 = halves(kind, straight, s, 3);
        assert(r == halves(kind, straight, s, 4));
        assert(h0.len() == 0);
        if s.north {
            assert(r[0].half == Some(0u8));
        }
        if s.east {
            assert(r[h1.len() as int].half == Some(1u8));
        }
        if s.south {
            assert(r[h2.len() as int].half == Some(2u8));
        }
        if s.west {
            assert(r[h3.len() as int].half == Some(3u8));
        }
    }
}

/// A belt lies in its direction: with the straight model where it runs straight, and
/// otherwise with the corner of the same tier, mirrored for a turn to the left, or to
/// the right where the two are exchanged. Everything else that is no pipe and no wall
/// is its own model in its own direction; only an underground belt that comes out of
/// the ground faces back.
pub proof fn lemma_single_models(
    shelf: Shelf,
    d: DiskSpec,
    g: Map<Cell, Joint>,
    kind: ConnKind,
    key: Seq<char>,
    pos: MapPos,
    dir: u8,
    swap: bool,
)
    requires
        kind != ConnKind::Pipe && kind != ConnKind::Heat && kind != ConnKind::Wall,
    ensures
        ({
            let (r, after) = pieces_of(shelf, d, g, kind, key, pos, dir, swap);
            let c = cell_of(pos);
            let p = r[0];
            &&& r.len() == 1
            &&& after == shelf
            &&& p.lift == LiftKnob::Ground && p.half is None && p.elbow is None
            &&& kind == ConnKind::Belt && curve_of(g, c, dir) == Curve::Straight ==> p.key == key && p.turn
                == dir && !p.mirror && p.yaw == YawKnob::BeltStraight
            &&& kind == ConnKind::Belt && curve_of(g, c, dir) != Curve::Straight ==> p.key == replace_of(
                key,
                "belt-I.glb"@,
                "belt-L.glb"@,
            ) && p.turn == dir && p.yaw == YawKnob::BeltCurved
            &&& kind == ConnKind::Belt && curve_of(g, c, dir) == Curve::Left ==> p.mirror == !swap
            &&& kind == ConnKind::Belt && curve_of(g, c, dir) == Curve::Right ==> p.mirror == swap
            &&& kind != ConnKind::Belt ==> p.key == key && !p.mirror
            &&& kind == ConnKind::Under ==> p.yaw == YawKnob::Under && p.turn - dir == (if exit_of(
                g,
                c,
                dir,
            ) {
                8int
            } else {
                0
            })
            &&& kind == ConnKind::Gate ==> p.turn == dir && p.yaw == YawKnob::Gate
            &&& kind == ConnKind::Splitter ==> p.turn == dir && p.yaw == YawKnob::Splitter
            &&& kind == ConnKind::PipeEnd || kind == ConnKind::Plain ==> p.turn == dir && p.yaw
                == YawKnob::PipeToGround
        }),
{
}

/// The treads of every belt run along, those of a splitter where an item is on one
/// of its two tiles, and nothing else does.
pub proof fn lemma_what_runs_along(kind: ConnKind, pos: MapPos, dir: u8, items: Set<Cell>)
    ensures
        (scroll_of(kind, pos, dir, items) == Scroll::Belt) == (kind == ConnKind::Belt),
        (scroll_of(kind, pos, dir, items) == Scroll::Splitter) == (kind == ConnKind::Splitter && (
        items.contains(splitter_at(pos, dir).0) || items.contains(splitter_at(pos, dir).1))),
{
}

/// The pieces of an entity that connects to its neighbours, and what runs along
/// on it.
pub fn connectable_instances(
    reg: &mut Registry,
    disk: &Disk,
    grid: &Grid,
    items: &CellSet,
    e: &Connectable,
    swap: bool,
) -> (r: (Vec<Piece>, Scroll))
    requires
        old(reg).wf(),
        grid.wf(),
    ensures
        final(reg).wf(),
        final(reg).loads() == old(reg).loads(),
        (piece_views(r.0@), final(reg).shelf()) == pieces_of(
            old(reg).shelf(),
            disk@,
            grid@,
            e.kind,
            e.key@,
            e.pos,
            e.dir,
            swap,
        ),
        r.1 == scroll_of(e.kind, e.pos, e.dir, items@),
{
    let c: Cell = cell_at(e.pos);
    let mut scroll: Scroll = Scroll::Still;
    let mut out: Vec<Piece> = Vec::new();
    match e.kind {
        ConnKind::Pipe | ConnKind::Heat | ConnKind::Wall => {
            let sides: Sides = neighbor_mask(grid, c, e.kind);
            return (junction_pieces(reg, disk, e.kind, e.key, &sides), scroll);
        },
        ConnKind::Belt => {
            scroll = Scroll::Belt;
            out.push(belt_piece(e.key, belt_curve(grid, c, e.dir), e.dir, swap));
        },
        ConnKind::Under => {
            let turn: u16 = if is_exit(grid, c, e.dir) {
                e.dir as u16 + 8
            } else {
                e.dir as u16
            };
            out.push(whole_piece(e.key.to_owned(), turn, YawKnob::Under, LiftKnob::Ground));
        },
        ConnKind::Gate => {
            out.push(whole_piece(e.key.to_owned(), e.dir as u16, YawKnob::Gate, LiftKnob::Ground));
        },
        ConnKind::Splitter => {
            let tiles: (Cell, Cell) = splitter_cells(e.pos, e.dir);
            if items.contains(tiles.0) || items.contains(tiles.1) {
                scroll = Scroll::Splitter;
            }
            out.push(
                whole_piece(e.key.to_owned(), e.dir as u16, YawKnob::Splitter, LiftKnob::Ground),
            );
        },
        _ => {
            out.push(
                whole_piece(
                    e.key.to_owned(),
                    e.dir as u16,
                    YawKnob::PipeToGround,
                    LiftKnob::Ground,
                ),
            );
        },
    }
    assert(piece_views(out@) =~= single_piece(
        grid@,
        e.kind,
        e.key@,
        e.pos,
        e.dir,
        swap,
    ));
    (out, scroll)
}

} // verus!
