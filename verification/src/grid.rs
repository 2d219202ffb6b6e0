//! The tiles of the map and what connects across them: belts, pipes and walls.

use crate::hooks::{lemma_pack_unpack, pack, packed, MapPos};
use crate::idmap::IdMap;
use crate::models::ConnKind;
use std::collections::HashSet;
use vstd::prelude::*;

verus! {

broadcast use vstd::std_specs::hash::group_hash_axioms;

/// A tile of the map.
#[derive(Clone, Copy, PartialEq, Eq, Structural, Debug)]
pub struct Cell {
    pub x: i32,
    pub y: i32,
}

/// The tile that a position lies in.
pub open spec fn cell_of(p: MapPos) -> Cell {
    Cell { x: (p.x as int / 256) as i32, y: (p.y as int / 256) as i32 }
}

/// Tiles that positions can lie in.
pub open spec fn on_map(c: Cell) -> bool {
    -0x80_0000 <= c.x < 0x80_0000 && -0x80_0000 <= c.y < 0x80_0000
}

/// The tiles up to `n` away from a tile have coordinates.
pub open spec fn has_room(c: Cell, n: int) -> bool {
    i32::MIN + n <= c.x <= i32::MAX - n && i32::MIN + n <= c.y <= i32::MAX - n
}

fn floor256(v: i32) -> (r: i32)
    ensures
        r == v as int / 256,
{
    if v >= 0 {
        v / 256
    } else {
        -1 - (-1 - v) / 256
    }
}

/// The tile that a position lies in.
pub fn cell_at(p: MapPos) -> (r: Cell)
    ensures
        r == cell_of(p),
        on_map(r),
{
    Cell { x: floor256(p.x), y: floor256(p.y) }
}

/// The number of a tile.
pub open spec fn cell_id(c: Cell) -> u64 {
    packed(c.x, c.y) as u64
}

proof fn lemma_cell_id(c: Cell)
    ensures
        packed(c.x, c.y) == cell_id(c),
        forall|d: Cell| #[trigger] cell_id(d) == cell_id(c) ==> d == c,
{
    lemma_pack_unpack(c.x, c.y, 0);
    assert forall|d: Cell| #[trigger] cell_id(d) == cell_id(c) implies d == c by {
        lemma_pack_unpack(d.x, d.y, 0);
    }
}

fn id_of(c: Cell) -> (r: u64)
    ensures
        r == cell_id(c),
{
    proof {
        lemma_cell_id(c);
    }
    pack(c.x, c.y)
}

/// A set of tiles.
pub struct CellSet {
    ids: HashSet<u64>,
}

impl CellSet {
    pub closed spec fn view(&self) -> Set<Cell> {
        Set::new(|c: Cell| self.ids@.contains(cell_id(c)))
    }

    pub fn new() -> (r: CellSet)
        ensures
            r@ == Set::<Cell>::empty(),
    {
        let r = CellSet { ids: HashSet::new() };
        assert(r@ =~= Set::<Cell>::empty());
        r
    }

    pub fn insert(&mut self, c: Cell)
        ensures
            final(self)@ == old(self)@.insert(c),
    {
        self.ids.insert(id_of(c));
        proof {
            lemma_cell_id(c);
            assert(self@ =~= old(self)@.insert(c));
        }
    }

    pub fn contains(&self, c: Cell) -> (r: bool)
        ensures
            r == self@.contains(c),
    {
        self.ids.contains(&id_of(c))
    }
}

/// What stands on a tile and connects to its neighbours.
#[derive(Clone, Copy, PartialEq, Eq, Structural, Debug)]
pub struct Joint {
    pub kind: ConnKind,
    pub dir: u8,
}

/// The tiles on which something connects to its neighbours.
pub struct Grid {
    cells: IdMap<Joint>,
}

impl Grid {
    pub closed spec fn wf(&self) -> bool {
        self.cells.wf()
    }

    pub closed spec fn view(&self) -> Map<Cell, Joint> {
        Map::new(|c: Cell| self.cells@.contains_key(cell_id(c)), |c: Cell| self.cells@[cell_id(c)])
    }

    pub fn new() -> (r: Grid)
        ensures
            r.wf(),
            r@ == Map::<Cell, Joint>::empty(),
    {
        let r = Grid { cells: IdMap::new() };
        assert(r@ =~= Map::<Cell, Joint>::empty());
        r
    }

    pub fn get(&self, c: Cell) -> (r: Option<Joint>)
        requires
            self.wf(),
        ensures
            r == joint_at(self@, c),
    {
        match self.cells.get(id_of(c)) {
            Some(j) => Some(*j),
            None => None,
        }
    }

    pub fn insert(&mut self, c: Cell, j: Joint)
        requires
            old(self).wf(),
        ensures
            final(self).wf(),
            final(self)@ == old(self)@.insert(c, j),
    {
        self.cells.insert(id_of(c), j);
        proof {
            lemma_cell_id(c);
            assert(self@ =~= old(self)@.insert(c, j));
        }
    }

    pub fn remove(&mut self, c: Cell)
        requires
            old(self).wf(),
        ensures
            final(self).wf(),
            final(self)@ == old(self)@.remove(c),
    {
        let gone = self.cells.remove(id_of(c));
        proof {
            lemma_cell_id(c);
            assert(self@ =~= old(self)@.remove(c));
        }
    }
}

/// What stands on a tile.
pub open spec fn joint_at(g: Map<Cell, Joint>, c: Cell) -> Option<Joint> {
    if g.contains_key(c) {
        Some(g[c])
    } else {
        None
    }
}

/// Belts of all sorts.
pub open spec fn belt_kind(k: ConnKind) -> bool {
    k == ConnKind::Belt || k == ConnKind::Under || k == ConnKind::Splitter
}

pub open spec fn pipe_kind(k: ConnKind) -> bool {
    k == ConnKind::Pipe || k == ConnKind::PipeEnd
}

pub open spec fn wall_kind(k: ConnKind) -> bool {
    k == ConnKind::Wall || k == ConnKind::Gate
}

/// The two connect: pipes that lead into the ground count as pipes, underground
/// belts and splitters as belts, gates as walls.
pub open spec fn joins(a: ConnKind, b: ConnKind) -> bool {
    ||| belt_kind(a) && belt_kind(b)
    ||| pipe_kind(a) && pipe_kind(b)
    ||| a == ConnKind::Heat && b == ConnKind::Heat
    ||| wall_kind(a) && wall_kind(b)
}

fn is_belt_kind(k: ConnKind) -> (r: bool)
    ensures
        r == belt_kind(k),
{
    match k {
        ConnKind::Belt | ConnKind::Under | ConnKind::Splitter => true,
        _ => false,
    }
}

/// Whether two kinds connect.
pub fn same_group(a: ConnKind, b: ConnKind) -> (r: bool)
    ensures
        r == joins(a, b),
{
    match a {
        ConnKind::Belt | ConnKind::Under | ConnKind::Splitter => is_belt_kind(b),
        ConnKind::Pipe | ConnKind::PipeEnd => b == ConnKind::Pipe || b == ConnKind::PipeEnd,
        ConnKind::Heat => b == ConnKind::Heat,
        ConnKind::Wall | ConnKind::Gate => b == ConnKind::Wall || b == ConnKind::Gate,
        ConnKind::Plain => false,
    }
}

/// To connect is mutual, and what connects to the same thing connects.
pub proof fn lemma_joins(a: ConnKind, b: ConnKind, c: ConnKind)
    ensures
        joins(a, b) == joins(b, a),
        joins(a, b) && joins(b, c) ==> joins(a, c),
        joins(a, a) == (a != ConnKind::Plain),
{
}

/// The cardinal of a direction of sixteen: north, east, south, west.
pub open spec fn card_of(dir: u8) -> int {
    dir as int / 4 % 4
}

pub fn card(dir: u8) -> (r: u8)
    ensures
        r == card_of(dir),
        r < 4,
{
    dir / 4 % 4
}

/// The tile that lies `n` tiles from another in a cardinal direction.
pub open spec fn ahead(c: Cell, k: int, n: int) -> Cell {
    if k == 0 {
        Cell { y: (c.y - n) as i32, ..c }
    } else if k == 1 {
        Cell { x: (c.x + n) as i32, ..c }
    } else if k == 2 {
        Cell { y: (c.y + n) as i32, ..c }
    } else {
        Cell { x: (c.x - n) as i32, ..c }
    }
}

fn tile_ahead(c: Cell, k: u8, n: i32) -> (r: Cell)
    requires
        has_room(c, if n < 0 {
            -n
        } else {
            n as int
        }),
    ensures
        r == ahead(c, k as int, n as int),
{
    if k == 0 {
        Cell { x: c.x, y: c.y - n }
    } else if k == 1 {
        Cell { x: c.x + n, y: c.y }
    } else if k == 2 {
        Cell { x: c.x, y: c.y + n }
    } else {
        Cell { x: c.x - n, y: c.y }
    }
}

/// On which sides of a tile something is.
#[derive(Clone, Copy, PartialEq, Eq, Structural, Debug)]
pub struct Sides {
    pub north: bool,
    pub east: bool,
    pub south: bool,
    pub west: bool,
}

impl Sides {
    /// How many sides there are.
    pub open spec fn count(self) -> int {
        (if self.north {
            1int
        } else {
            0
        }) + (if self.east {
            1int
        } else {
            0
        }) + (if self.south {
            1int
        } else {
            0
        }) + (if self.west {
            1int
        } else {
            0
        })
    }

    /// The sides after a quarter turn clockwise.
    pub open spec fn turned(self) -> Sides {
        Sides { north: self.west, east: self.north, south: self.east, west: self.south }
    }

    /// The side in a cardinal direction.
    pub open spec fn side(self, k: int) -> bool {
        if k == 0 {
            self.north
        } else if k == 1 {
            self.east
        } else if k == 2 {
            self.south
        } else {
            self.west
        }
    }

    pub fn len(&self) -> (r: u8)
        ensures
            r == self.count(),
    {
        let mut n: u8 = 0;
        if self.north {
            n = n + 1;
        }
        if self.east {
            n = n + 1;
        }
        if self.south {
            n = n + 1;
        }
        if self.west {
            n = n + 1;
        }
        n
    }

    pub fn has_side(&self, k: u8) -> (r: bool)
        ensures
            r == self.side(k as int),
    {
        if k == 0 {
            self.north
        } else if k == 1 {
            self.east
        } else if k == 2 {
            self.south
        } else {
            self.west
        }
    }
}

/// What stands on the tile next to another connects to it.
pub open spec fn connected(g: Map<Cell, Joint>, c: Cell, kind: ConnKind, k: int) -> bool {
    joint_at(g, ahead(c, k, 1)) matches Some(j) && joins(kind, j.kind)
}

/// The sides on which a tile is connected.
pub open spec fn sides_of(g: Map<Cell, Joint>, c: Cell, kind: ConnKind) -> Sides {
    Sides {
        north: connected(g, c, kind, 0),
        east: connected(g, c, kind, 1),
        south: connected(g, c, kind, 2),
        west: connected(g, c, kind, 3),
    }
}

fn is_connected(grid: &Grid, c: Cell, kind: ConnKind, k: u8) -> (r: bool)
    requires
        grid.wf(),
        has_room(c, 1),
    ensures
        r == connected(grid@, c, kind, k as int),
{
    match grid.get(tile_ahead(c, k, 1)) {
        Some(j) => same_group(kind, j.kind),
        None => false,
    }
}

/// The sides on which a tile is connected.
pub fn neighbor_mask(grid: &Grid, c: Cell, kind: ConnKind) -> (r: Sides)
    requires
        grid.wf(),
        has_room(c, 1),
    ensures
        r == sides_of(grid@, c, kind),
{
    Sides {
        north: is_connected(grid, c, kind, 0),
        east: is_connected(grid, c, kind, 1),
        south: is_connected(grid, c, kind, 2),
        west: is_connected(grid, c, kind, 3),
    }
}

/// Two neighbours of kinds that connect see each other, each on the side that
/// faces the other.
pub proof fn lemma_connections_are_mutual(g: Map<Cell, Joint>, c: Cell, k: int)
    requires
        has_room(c, 1),
        0 <= k < 4,
        g.contains_key(c),
        g.contains_key(ahead(c, k, 1)),
    ensures
        ahead(ahead(c, k, 1), (k + 2) % 4, 1) == c,
        connected(g, c, g[c].kind, k) == connected(
            g,
            ahead(c, k, 1),
            g[ahead(c, k, 1)].kind,
            (k + 2) % 4,
        ),
{
}

/// The quarter turns of a straight run; none where the run bends or forks.
pub open spec fn straight_of(s: Sides) -> Option<u8> {
    if !s.east && !s.west {
        Some(0)
    } else if !s.north && !s.south {
        Some(1)
    } else {
        None
    }
}

pub fn straight_yaw(s: &Sides) -> (r: Option<u8>)
    ensures
        r == straight_of(*s),
{
    if !s.east && !s.west {
        Some(0)
    } else if !s.north && !s.south {
        Some(1)
    } else {
        None
    }
}

/// The quarter turns of a corner, from the one between north and east.
pub open spec fn corner_of(s: Sides) -> u8 {
    if s == (Sides { north: true, east: true, south: false, west: false }) {
        0
    } else if s == (Sides { north: false, east: true, south: true, west: false }) {
        1
    } else if s == (Sides { north: false, east: false, south: true, west: true }) {
        2
    } else {
        3
    }
}

pub fn corner_quarter(s: &Sides) -> (r: u8)
    ensures
        r == corner_of(*s),
        r < 4,
{
    if s.north && s.east && !s.south && !s.west {
        0
    } else if !s.north && s.east && s.south && !s.west {
        1
    } else if !s.north && !s.east && s.south && s.west {
        2
    } else {
        3
    }
}

/// The quarter turns of a fork, from the one without a side in the north.
pub open spec fn fork_of(s: Sides) -> u8 {
    if !s.north && s.east && s.south && s.west {
        0
    } else if s.north && !s.east && s.south && s.west {
        1
    } else if s.north && s.east && !s.south && s.west {
        2
    } else {
        3
    }
}

pub fn fork_quarter(s: &Sides) -> (r: u8)
    ensures
        r == fork_of(*s),
        r < 4,
{
    if !s.north && s.east && s.south && s.west {
        0
    } else if s.north && !s.east && s.south && s.west {
        1
    } else if s.north && s.east && !s.south && s.west {
        2
    } else {
        3
    }
}

/// A junction that is turned by a quarter is drawn turned by a quarter.
pub proof fn lemma_junctions_turn(s: Sides)
    ensures
        s.turned().count() == s.count(),
        s.turned().turned().turned().turned() == s,
        s.count() == 2 && straight_of(s) is None ==> corner_of(s.turned()) as int == (corner_of(s)
            + 1) % 4,
        s.count() == 3 ==> fork_of(s.turned()) as int == (fork_of(s) + 1) % 4,
        s.count() > 0 && straight_of(s) is Some ==> straight_of(s.turned()) == Some(
            (1 - straight_of(s)->0) as u8,
        ),
{
}

/// A belt next to a tile runs onto it in a cardinal direction.
pub open spec fn feeds(g: Map<Cell, Joint>, c: Cell, k: int) -> bool {
    joint_at(g, ahead(c, k, -1)) matches Some(j) && belt_kind(j.kind) && card_of(j.dir) == k
}

/// How a belt runs.
#[derive(Clone, Copy, PartialEq, Eq, Structural, Debug)]
pub enum Curve {
    Straight,
    /// Out to the left of where it comes in.
    Left,
    /// Out to the right of where it comes in.
    Right,
}

/// How the belt on a tile runs: it curves where a belt comes in from one side and
/// none from behind.
pub open spec fn curve_of(g: Map<Cell, Joint>, c: Cell, dir: u8) -> Curve {
    let out = card_of(dir);
    let from_right = feeds(g, c, (out + 1) % 4);
    let from_left = feeds(g, c, (out + 3) % 4);
    if feeds(g, c, out) || from_right == from_left {
        Curve::Straight
    } else if from_right {
        Curve::Left
    } else {
        Curve::Right
    }
}

fn is_fed(grid: &Grid, c: Cell, k: u8) -> (r: bool)
    requires
        grid.wf(),
        has_room(c, 1),
    ensures
        r == feeds(grid@, c, k as int),
{
    match grid.get(tile_ahead(c, k, -1)) {
        Some(j) => is_belt_kind(j.kind) && card(j.dir) == k,
        None => false,
    }
}

/// How the belt on a tile runs.
pub fn belt_curve(grid: &Grid, c: Cell, dir: u8) -> (r: Curve)
    requires
        grid.wf(),
        has_room(c, 1),
    ensures
        r == curve_of(grid@, c, dir),
{
    let out: u8 = card(dir);
    let from_right: bool = is_fed(grid, c, (out + 1) % 4);
    let from_left: bool = is_fed(grid, c, (out + 3) % 4);
    if is_fed(grid, c, out) || from_right == from_left {
        Curve::Straight
    } else if from_right {
        Curve::Left
    } else {
        Curve::Right
    }
}

/// A belt that is fed from behind, from both sides or from nowhere runs straight,
/// one that is fed from one side alone turns.
pub proof fn lemma_straight_belts(g: Map<Cell, Joint>, c: Cell, dir: u8)
    ensures
        feeds(g, c, card_of(dir)) ==> curve_of(g, c, dir) == Curve::Straight,
        (forall|k: int| 0 <= k < 4 ==> !feeds(g, c, k)) ==> curve_of(g, c, dir) == Curve::Straight,
        feeds(g, c, (card_of(dir) + 1) % 4) && feeds(g, c, (card_of(dir) + 3) % 4) ==> curve_of(
            g,
            c,
            dir,
        ) == Curve::Straight,
        feeds(g, c, (card_of(dir) + 1) % 4) && !feeds(g, c, (card_of(dir) + 3) % 4) && !feeds(
            g,
            c,
            card_of(dir),
        ) ==> curve_of(g, c, dir) == Curve::Left,
        feeds(g, c, (card_of(dir) + 3) % 4) && !feeds(g, c, (card_of(dir) + 1) % 4) && !feeds(
            g,
            c,
            card_of(dir),
        ) ==> curve_of(g, c, dir) == Curve::Right,
{
}

/// How far an underground belt reaches, in tiles.
pub const UNDER_REACH: i32 = 9;

/// An underground belt of the same direction stands `n` tiles from a tile.
pub open spec fn partner_at(g: Map<Cell, Joint>, c: Cell, out: int, n: int) -> bool {
    joint_at(g, ahead(c, out, n)) matches Some(j) && j.kind == ConnKind::Under && card_of(j.dir)
        == out
}

/// An underground belt of the same direction stands within reach, ahead of a
/// tile or behind it.
pub open spec fn partner_within(g: Map<Cell, Joint>, c: Cell, out: int, sign: int) -> bool {
    exists|i: int| 1 <= i <= 9 && #[trigger] partner_at(g, c, out, i * sign)
}

fn has_partner(grid: &Grid, c: Cell, out: u8, back: bool) -> (r: bool)
    requires
        grid.wf(),
        has_room(c, 9),
    ensures
        r == partner_within(
            grid@,
            c,
            out as int,
            if back {
                -1
            } else {
                1
            },
        ),
{
    let mut i: i32 = 1;
    let ghost sign: int = if back {
        -1
    } else {
        1
    };
    while i <= UNDER_REACH
        invariant
            1 <= i <= 10,
            grid.wf(),
            has_room(c, 9),
            sign == if back {
                -1int
            } else {
                1int
            },
            forall|j: int| 1 <= j < i ==> !#[trigger] partner_at(grid@, c, out as int, j * sign),
        decreases 10 - i,
    {
        let n: i32 = if back {
            -i
        } else {
            i
        };
        assert(n == i * sign);
        match grid.get(tile_ahead(c, out, n)) {
            Some(j) => {
                if j.kind == ConnKind::Under && card(j.dir) == out {
                    assert(partner_at(grid@, c, out as int, i * sign));
                    return true;
                }
            },
            None => {},
        }
        i = i + 1;
    }
    false
}

/// An underground belt is an exit: its partner lies behind it and none ahead;
/// one without a partner is an exit where a belt goes on ahead.
pub open spec fn exit_of(g: Map<Cell, Joint>, c: Cell, dir: u8) -> bool {
    let out = card_of(dir);
    if partner_within(g, c, out, 1) {
        false
    } else if partner_within(g, c, out, -1) {
        true
    } else {
        joint_at(g, ahead(c, out, 1)) matches Some(j) && belt_kind(j.kind) && card_of(j.dir) == out
    }
}

/// Whether an underground belt is an exit.
pub fn is_exit(grid: &Grid, c: Cell, dir: u8) -> (r: bool)
    requires
        grid.wf(),
        has_room(c, 9),
    ensures
        r == exit_of(grid@, c, dir),
{
    let out: u8 = card(dir);
    if has_partner(grid, c, out, false) {
        false
    } else if has_partner(grid, c, out, true) {
        true
    } else {
        match grid.get(tile_ahead(c, out, 1)) {
            Some(j) => is_belt_kind(j.kind) && card(j.dir) == out,
            None => false,
        }
    }
}

/// Two underground belts that face each other within reach, with none beyond,
/// are an entrance and an exit.
pub proof fn lemma_entrance_and_exit(g: Map<Cell, Joint>, c: Cell, dir: u8, n: int)
    requires
        has_room(c, 9),
        1 <= n <= 9,
        partner_at(g, c, card_of(dir), 0),
        partner_at(g, c, card_of(dir), n),
        !partner_within(g, ahead(c, card_of(dir), n), card_of(dir), 1),
    ensures
        !exit_of(g, c, dir),
        exit_of(g, ahead(c, card_of(dir), n), dir),
{
    let out = card_of(dir);
    let d = ahead(c, out, n);
    assert(partner_at(g, c, out, n * 1));
    assert(n * -1 == -n);
    assert(ahead(d, out, -n) == c);
    assert(ahead(c, out, 0) == c);
    assert(partner_at(g, d, out, n * -1));
}

/// The two tiles of a splitter, which lie on either side of its middle.
pub open spec fn splitter_at(p: MapPos, dir: u8) -> (Cell, Cell) {
    if card_of(dir) % 2 == 0 {
        (
            Cell { x: ((p.x - 128) / 256) as i32, y: (p.y as int / 256) as i32 },
            Cell { x: ((p.x + 128) / 256) as i32, y: (p.y as int / 256) as i32 },
        )
    } else {
        (
            Cell { x: (p.x as int / 256) as i32, y: ((p.y - 128) / 256) as i32 },
            Cell { x: (p.x as int / 256) as i32, y: ((p.y + 128) / 256) as i32 },
        )
    }
}

/// The tile of a coordinate that is moved by half a tile.
fn floor_half(v: i32, up: bool) -> (r: i32)
    ensures
        r == (v + (if up {
            128int
        } else {
            -128int
        })) / 256,
{
    let q: i32 = floor256(v);
    let rest: i32 = v - q * 256;
    if up {
        if rest >= 128 {
            q + 1
        } else {
            q
        }
    } else if rest >= 128 {
        q
    } else {
        q - 1
    }
}

/// The two tiles of a splitter.
pub fn splitter_cells(p: MapPos, dir: u8) -> (r: (Cell, Cell))
    ensures
        r == splitter_at(p, dir),
{
    if card(dir) % 2 == 0 {
        (
            Cell { x: floor_half(p.x, false), y: floor256(p.y) },
            Cell { x: floor_half(p.x, true), y: floor256(p.y) },
        )
    } else {
        (
            Cell { x: floor256(p.x), y: floor_half(p.y, false) },
            Cell { x: floor256(p.x), y: floor_half(p.y, true) },
        )
    }
}

/// The tiles of a splitter are neighbours, across its direction.
pub proof fn lemma_splitter_tiles(p: MapPos, dir: u8)
    ensures
        ({
            let (a, b) = splitter_at(p, dir);
            b == ahead(a, if card_of(dir) % 2 == 0 {
                1
            } else {
                2
            }, 1)
        }),
{
}

/// A tile holds the positions from its corner up to the next one's, 256 apart.
pub proof fn lemma_tile_bounds(p: MapPos, r: Cell)
    requires
        call_ensures(cell_at, (p,), r),
    ensures
        256 * r.x <= p.x < 256 * r.x + 256,
        256 * r.y <= p.y < 256 * r.y + 256,
{
}

/// North is up the map, where y is less; east, south and west follow clockwise.
pub proof fn lemma_ahead(c: Cell, n: int)
    requires
        has_room(c, 9),
        -9 <= n <= 9,
    ensures
        ahead(c, 0, n).x == c.x && ahead(c, 0, n).y == c.y - n,
        ahead(c, 1, n).x == c.x + n && ahead(c, 1, n).y == c.y,
        ahead(c, 2, n).x == c.x && ahead(c, 2, n).y == c.y + n,
        ahead(c, 3, n).x == c.x - n && ahead(c, 3, n).y == c.y,
{
}

/// A tile is connected on the sides where a neighbour is of a kind that joins its
/// own, and on no other: belts with underground belts and splitters, pipes with
/// those that lead into the ground, heat pipes among themselves, walls with gates.
pub proof fn lemma_connected_sides(grid: &Grid, c: Cell, kind: ConnKind, r: Sides)
    requires
        grid.wf(),
        has_room(c, 1),
        call_ensures(neighbor_mask, (grid, c, kind), r),
    ensures
        ({
            let like = |j: ConnKind|
                match kind {
                    ConnKind::Belt | ConnKind::Under | ConnKind::Splitter => j == ConnKind::Belt || j
                        == ConnKind::Under || j == ConnKind::Splitter,
                    ConnKind::Pipe | ConnKind::PipeEnd => j == ConnKind::Pipe || j == ConnKind::PipeEnd,
                    ConnKind::Heat => j == ConnKind::Heat,
                    ConnKind::Wall | ConnKind::Gate => j == ConnKind::Wall || j == ConnKind::Gate,
                    ConnKind::Plain => false,
                };
            let there = |x: int, y: int|
                grid@.contains_key(Cell { x: x as i32, y: y as i32 }) && like(
                    grid@[Cell { x: x as i32, y: y as i32 }].kind,
                );
            &&& r.north == there(c.x as int, c.y - 1)
            &&& r.east == there(c.x + 1, c.y as int)
            &&& r.south == there(c.x as int, c.y + 1)
            &&& r.west == there(c.x - 1, c.y as int)
        }),
{
}

/// The four cardinals of sixteen directions are the north, the east, the south and
/// the west, four directions each.
pub proof fn lemma_cardinals(dir: u8)
    requires
        dir < 16,
    ensures
        dir < 4 ==> card_of(dir) == 0,
        4 <= dir < 8 ==> card_of(dir) == 1,
        8 <= dir < 12 ==> card_of(dir) == 2,
        12 <= dir ==> card_of(dir) == 3,
{
}

/// A belt that runs north curves exactly where one neighbour beside it, and not the
/// tile behind it nor the other side, holds a belt that runs onto it: from the west
/// it turns to the left of where it came from, from the east to the right. So it is
/// for the other directions, turned with them.
pub proof fn lemma_belts_curve(grid: &Grid, c: Cell, dir: u8, r: Curve)
    requires
        grid.wf(),
        has_room(c, 1),
        dir < 16,
        call_ensures(belt_curve, (grid, c, dir), r),
    ensures
        ({
            let runs = |x: int, y: int, k: int|
                {
                    let t = Cell { x: x as i32, y: y as i32 };
                    grid@.contains_key(t) && (grid@[t].kind == ConnKind::Belt || grid@[t].kind
                        == ConnKind::Under || grid@[t].kind == ConnKind::Splitter) && grid@[t].dir as int / 4
                        % 4 == k
                };
            let north = runs(c.x as int, c.y + 1, 0);
            let east = runs(c.x - 1, c.y as int, 1);
            let south = runs(c.x as int, c.y - 1, 2);
            let west = runs(c.x + 1, c.y as int, 3);
            &&& dir < 4 ==> (r == Curve::Left <==> east && !west && !north) && (r == Curve::Right <==> west
                && !east && !north)
            &&& 4 <= dir < 8 ==> (r == Curve::Left <==> south && !north && !east) && (r == Curve::Right
                <==> north && !south && !east)
            &&& 8 <= dir < 12 ==> (r == Curve::Left <==> west && !east && !south) && (r == Curve::Right
                <==> east && !west && !south)
            &&& 12 <= dir ==> (r == Curve::Left <==> north && !south && !west) && (r == Curve::Right <==> south
                && !north && !west)
        }),
{
}

/// A splitter lies on the tiles half a tile to either side of its middle, across the
/// direction that it runs in.
pub proof fn lemma_tiles_of_a_splitter(p: MapPos, dir: u8, r: (Cell, Cell))
    requires
        dir < 16,
        call_ensures(splitter_cells, (p, dir), r),
    ensures
        dir < 4 || 8 <= dir < 12 ==> 256 * r.0.x <= p.x - 128 < 256 * r.0.x + 256 && 256 * r.1.x <= p.x + 128
            < 256 * r.1.x + 256 && r.0.y == r.1.y && 256 * r.0.y <= p.y < 256 * r.0.y + 256,
        4 <= dir < 8 || 12 <= dir ==> 256 * r.0.y <= p.y - 128 < 256 * r.0.y + 256 && 256 * r.1.y <= p.y + 128
            < 256 * r.1.y + 256 && r.0.x == r.1.x && 256 * r.0.x <= p.x < 256 * r.0.x + 256,
{
}

/// An underground belt goes in where one of the same direction stands up to nine
/// tiles ahead of it. Otherwise it comes out where one stands up to nine tiles
/// behind it, or where a belt goes on ahead in the same direction.
pub proof fn lemma_where_belts_come_out(grid: &Grid, c: Cell, dir: u8, r: bool)
    requires
        grid.wf(),
        has_room(c, 9),
        dir < 16,
        call_ensures(is_exit, (grid, c, dir), r),
    ensures
        ({
            let k = dir as int / 4;
            let g = grid@;
            let in_front = exists|n: int|
                1 <= n <= 9 && g.contains_key(#[trigger] ahead(c, k, n)) && g[ahead(c, k, n)].kind
                    == ConnKind::Under && g[ahead(c, k, n)].dir as int / 4 % 4 == k;
            let behind = exists|n: int|
                -9 <= n <= -1 && g.contains_key(#[trigger] ahead(c, k, n)) && g[ahead(c, k, n)].kind
                    == ConnKind::Under && g[ahead(c, k, n)].dir as int / 4 % 4 == k;
            let next = ahead(c, k, 1);
            let goes_on = g.contains_key(next) && (g[next].kind == ConnKind::Belt || g[next].kind
                == ConnKind::Under || g[next].kind == ConnKind::Splitter) && g[next].dir as int / 4 % 4 == k;
            r <==> !in_front && (behind || goes_on)
        }),
{
    let k = dir as int / 4;
    let g = grid@;
    assert(card_of(dir) == k);
    if partner_within(g, c, k, 1) {
        let n = choose|n: int| 1 <= n <= 9 && #[trigger] partner_at(g, c, k, n * 1);
        assert(g.contains_key(ahead(c, k, n)));
    }
    if partner_within(g, c, k, -1) {
        let n = choose|n: int| 1 <= n <= 9 && #[trigger] partner_at(g, c, k, n * -1);
        assert(n * -1 == -n);
        assert(g.contains_key(ahead(c, k, -n)));
    }
    assert forall|n: int| 1 <= n <= 9 && partner_at(g, c, k, n) implies #[trigger] g.contains_key(
        ahead(c, k, n),
    ) && partner_within(g, c, k, 1) by {
        assert(partner_at(g, c, k, n * 1));
    }
    assert forall|n: int| -9 <= n <= -1 && partner_at(g, c, k, n) implies #[trigger] g.contains_key(
        ahead(c, k, n),
    ) && partner_within(g, c, k, -1) by {
        let m = -n;
        assert(m * -1 == n);
        assert(partner_at(g, c, k, m * -1));
    }
    assert(r == exit_of(g, c, dir));
}

} // verus!
