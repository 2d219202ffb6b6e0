//! From recorded rectangles to standing quads: which parts belong to one
//! entity, where each part is anchored, which tile it is drawn from, and the
//! order in which the quads are drawn.
//!
//! Places on the screen come as keys that are ordered as the floats are.

use crate::order::{order_by_key, stable_order};
use vstd::prelude::*;

verus! {

/// The most quads that are drawn in a frame.
pub const MAX_BILLBOARDS: usize = 65536;

/// The rectangle of one part of a sprite, with keys for its edges, its lower
/// edge in the view and its centre in the view.
#[derive(Clone, Copy, PartialEq, Eq, Structural, Debug)]
pub struct PartRect {
    pub x0: i32,
    pub x1: i32,
    pub y0: i32,
    pub y1: i32,
    pub vb: i32,
    pub uc: i32,
    pub kx: i32,
    pub ky: i32,
    pub player: bool,
    pub unit: bool,
    pub flat: bool,
    pub fly: bool,
    pub elevated_flat: bool,
    pub special: bool,
    pub grp: u32,
}

/// All parts of one moving entity.
#[derive(Clone, Copy, PartialEq, Eq, Structural, Debug)]
pub struct SpecialGroup {
    pub grp: u32,
    pub x0: i32,
    pub x1: i32,
    pub y0: i32,
    pub y1: i32,
    pub kx0: i32,
    pub kx1: i32,
    pub ky0: i32,
    pub ky1: i32,
    pub player: bool,
    pub unit: bool,
    pub flat: bool,
    pub fly: bool,
}

/// The part belongs to a moving entity that is known by its serial number.
pub open spec fn grouped(r: PartRect) -> bool {
    r.special && r.grp != 0
}

pub open spec fn smaller(a: i32, b: i32) -> i32 {
    if b < a {
        b
    } else {
        a
    }
}

pub open spec fn larger(a: i32, b: i32) -> i32 {
    if b > a {
        b
    } else {
        a
    }
}

/// A group of one part.
pub open spec fn alone(r: PartRect) -> SpecialGroup {
    SpecialGroup {
        grp: r.grp,
        x0: r.x0,
        x1: r.x1,
        y0: r.y0,
        y1: r.y1,
        kx0: r.kx,
        kx1: r.kx,
        ky0: r.ky,
        ky1: r.ky,
        player: r.player,
        unit: r.unit,
        flat: r.flat,
        fly: r.fly,
    }
}

/// The group with another part.
pub open spec fn joined(g: SpecialGroup, r: PartRect) -> SpecialGroup {
    SpecialGroup {
        grp: g.grp,
        x0: smaller(g.x0, r.x0),
        x1: larger(g.x1, r.x1),
        y0: smaller(g.y0, r.y0),
        y1: larger(g.y1, r.y1),
        kx0: smaller(g.kx0, r.kx),
        kx1: larger(g.kx1, r.kx),
        ky0: smaller(g.ky0, r.ky),
        ky1: larger(g.ky1, r.ky),
        player: g.player || r.player,
        unit: g.unit || r.unit,
        flat: g.flat || r.flat,
        fly: g.fly || r.fly,
    }
}

/// The group of all parts with a serial number.
pub open spec fn union_of(s: Seq<PartRect>, grp: u32) -> Option<SpecialGroup>
    decreases s.len(),
{
    if s.len() == 0 {
        None
    } else {
        let before = union_of(s.drop_last(), grp);
        let r = s.last();
        if grouped(r) && r.grp == grp {
            match before {
                Some(g) => Some(joined(g, r)),
                None => Some(alone(r)),
            }
        } else {
            before
        }
    }
}

/// The serial numbers of the moving entities, in the order in which they come
/// up.
pub open spec fn serials_of(s: Seq<PartRect>) -> Seq<u32>
    decreases s.len(),
{
    if s.len() == 0 {
        Seq::empty()
    } else {
        let before = serials_of(s.drop_last());
        if grouped(s.last()) && !before.contains(s.last().grp) {
            before.push(s.last().grp)
        } else {
            before
        }
    }
}

fn min32(a: i32, b: i32) -> (r: i32)
    ensures
        r == smaller(a, b),
{
    if b < a {
        b
    } else {
        a
    }
}

fn max32(a: i32, b: i32) -> (r: i32)
    ensures
        r == larger(a, b),
{
    if b > a {
        b
    } else {
        a
    }
}

fn find_serial(g: &Vec<SpecialGroup>, grp: u32) -> (r: Option<usize>)
    ensures
        r matches Some(i) ==> i < g.len() && g@[i as int].grp == grp,
        r is None ==> forall|i: int| 0 <= i < g.len() ==> (#[trigger] g@[i]).grp != grp,
{
    let mut i: usize = 0;
    while i < g.len()
        invariant
            i <= g.len(),
            forall|k: int| 0 <= k < i ==> (#[trigger] g@[k]).grp != grp,
        decreases g.len() - i,
    {
        if g[i].grp == grp {
            return Some(i);
        }
        i = i + 1;
    }
    None
}

proof fn lemma_serials(s: Seq<PartRect>, grp: u32)
    ensures
        serials_of(s).contains(grp) <==> union_of(s, grp) is Some,
        union_of(s, grp) matches Some(g) ==> g.grp == grp,
    decreases s.len(),
{
    if s.len() > 0 {
        let d = s.drop_last();
        lemma_serials(d, grp);
        let before = serials_of(d);
        let after = serials_of(s);
        if before.contains(grp) {
            let i = choose|i: int| 0 <= i < before.len() && before[i] == grp;
            assert(after[i] == grp);
        }
        if grouped(s.last()) && s.last().grp == grp && !before.contains(grp) {
            assert(after[before.len() as int] == grp);
        }
        if after.contains(grp) && !before.contains(grp) {
            let i = choose|i: int| 0 <= i < after.len() && after[i] == grp;
            if i < before.len() {
                assert(before[i] == grp);
            }
        }
    }
}

/// Unites the parts of each moving entity: drawn part by part, each part would
/// show the whole entity at its own offset.
pub fn group_specials(rects: &Vec<PartRect>) -> (r: Vec<SpecialGroup>)
    ensures
        r@.map_values(|g: SpecialGroup| g.grp) == serials_of(rects@),
        forall|i: int| 0 <= i < r.len() ==> union_of(rects@, (#[trigger] r@[i]).grp) == Some(r@[i]),
{
    let mut g: Vec<SpecialGroup> = Vec::new();
    let ghost s = rects@;
    let mut i: usize = 0;
    assert(g@.map_values(|g: SpecialGroup| g.grp) =~= serials_of(s.take(0)));
    while i < rects.len()
        invariant
            i <= rects.len(),
            s == rects@,
            g@.map_values(|g: SpecialGroup| g.grp) == serials_of(s.take(i as int)),
            forall|k: int|
                0 <= k < g.len() ==> union_of(s.take(i as int), (#[trigger] g@[k]).grp) == Some(g@[k]),
            forall|a: int, b: int| 0 <= a < b < g.len() ==> (#[trigger] g@[a]).grp != (#[trigger] g@[b]).grp,
        decreases rects.len() - i,
    {
        let r: PartRect = rects[i];
        let ghost t0 = s.take(i as int);
        let ghost t1 = s.take(i + 1);
        let ghost g0 = g@;
        let ghost ser0 = serials_of(t0);
        assert(t1.drop_last() =~= t0);
        assert(t1.last() == r);
        if r.special && r.grp != 0 {
            proof {
                lemma_serials(t0, r.grp);
            }
            match find_serial(&g, r.grp) {
                Some(at) => {
                    let e: SpecialGroup = g[at];
                    let n = SpecialGroup {
                        grp: e.grp,
                        x0: min32(e.x0, r.x0),
                        x1: max32(e.x1, r.x1),
                        y0: min32(e.y0, r.y0),
                        y1: max32(e.y1, r.y1),
                        kx0: min32(e.kx0, r.kx),
                        kx1: max32(e.kx1, r.kx),
                        ky0: min32(e.ky0, r.ky),
                        ky1: max32(e.ky1, r.ky),
                        player: e.player || r.player,
                        unit: e.unit || r.unit,
                        flat: e.flat || r.flat,
                        fly: e.fly || r.fly,
                    };
                    g.set(at, n);
                    proof {
                        assert(g@.map_values(|g: SpecialGroup| g.grp) =~= g0.map_values(|g: SpecialGroup| g.grp));
                        assert(g0.map_values(|g: SpecialGroup| g.grp)[at as int] == r.grp);
                        assert(ser0.contains(r.grp));
                        assert forall|k: int| 0 <= k < g@.len() implies union_of(t1, (#[trigger] g@[k]).grp) == Some(g@[k]) by {
                            assert(union_of(t0, g0[k].grp) == Some(g0[k]));
                            if k < at {
                                assert(g0[k].grp != g0[at as int].grp);
                            } else if k > at {
                                assert(g0[at as int].grp != g0[k].grp);
                            }
                        }
                    }
                },
                None => {
                    g.push(
                        SpecialGroup {
                            grp: r.grp,
                            x0: r.x0,
                            x1: r.x1,
                            y0: r.y0,
                            y1: r.y1,
                            kx0: r.kx,
                            kx1: r.kx,
                            ky0: r.ky,
                            ky1: r.ky,
                            player: r.player,
                            unit: r.unit,
                            flat: r.flat,
                            fly: r.fly,
                        },
                    );
                    proof {
                        if ser0.contains(r.grp) {
                            let k = choose|k: int| 0 <= k < ser0.len() && ser0[k] == r.grp;
                            assert(g0.map_values(|g: SpecialGroup| g.grp)[k] == g0[k].grp);
                        }
                        assert(g@.map_values(|g: SpecialGroup| g.grp) =~= ser0.push(r.grp));
                        assert forall|k: int| 0 <= k < g@.len() implies union_of(t1, (#[trigger] g@[k]).grp) == Some(g@[k]) by {
                            if k < g0.len() {
                                assert(union_of(t0, g0[k].grp) == Some(g0[k]));
                            }
                        }
                    }
                },
            }
        } else {
            proof {
                assert forall|k: int| 0 <= k < g@.len() implies union_of(t1, (#[trigger] g@[k]).grp) == Some(g@[k]) by {
                    assert(union_of(t0, g0[k].grp) == Some(g0[k]));
                }
            }
        }
        i = i + 1;
    }
    assert(s.take(i as int) =~= s);
    g
}

/// A part of an entity lies within its group.
pub proof fn lemma_group_covers(s: Seq<PartRect>, i: int)
    requires
        0 <= i < s.len(),
        grouped(s[i]),
    ensures
        union_of(s, s[i].grp) matches Some(g) && g.x0 <= s[i].x0 && g.x1 >= s[i].x1 && g.y0 <= s[i].y0
            && g.y1 >= s[i].y1 && g.kx0 <= s[i].kx <= g.kx1 && g.ky0 <= s[i].ky <= g.ky1,
    decreases s.len(),
{
    if i < s.len() - 1 {
        lemma_group_covers(s.drop_last(), i);
    }
}

/// How a moving entity is anchored.
#[derive(Clone, Copy, PartialEq, Eq, Structural, Debug)]
pub enum GroupAnchor {
    /// Not drawn.
    Hidden,
    /// Laid flat where it was captured: wagons stay on their rails.
    Flat,
    /// At its lower edge, moved south: flying robots.
    Fly,
    /// At its lower edge: the player and enemies.
    LowerEdge,
    /// At its position on the map: vehicles.
    MapPosition,
}

/// How a moving entity is anchored. In first person the player is not drawn.
pub fn group_anchor(g: &SpecialGroup, first_person: bool, view_known: bool) -> (r: GroupAnchor)
    ensures
        r == if g.player && first_person {
            GroupAnchor::Hidden
        } else if g.flat {
            GroupAnchor::Flat
        } else if g.fly {
            GroupAnchor::Fly
        } else if g.player || g.unit || !view_known {
            GroupAnchor::LowerEdge
        } else {
            GroupAnchor::MapPosition
        },
{
    if g.player && first_person {
        GroupAnchor::Hidden
    } else if g.flat {
        GroupAnchor::Flat
    } else if g.fly {
        GroupAnchor::Fly
    } else if g.player || g.unit || !view_known {
        GroupAnchor::LowerEdge
    } else {
        GroupAnchor::MapPosition
    }
}

/// How far apart the positions of one building's parts may be, in 256ths of a
/// tile.
pub const CLUSTER_REACH: i64 = 192;

/// Beyond this spread an entity's parts each stand on their own lower edge.
pub const MAX_SPREAD: i64 = 768;

/// The parts that are no moving entity's.
pub open spec fn standing(s: Seq<PartRect>) -> Seq<PartRect> {
    s.filter(|r: PartRect| !grouped(r))
}

/// A place on the map that stands for the parts around it.
pub type Place = (i32, i32);

pub open spec fn gap(a: i32, b: i32) -> int {
    if a >= b {
        a - b
    } else {
        b - a
    }
}

/// The place is near on both axes.
pub open spec fn near(p: Place, x: i32, y: i32) -> bool {
    gap(p.0, x) <= 192 && gap(p.1, y) <= 192
}

/// The first place that is near.
pub open spec fn first_near(reps: Seq<Place>, x: i32, y: i32) -> Option<Place>
    decreases reps.len(),
{
    if reps.len() == 0 {
        None
    } else if first_near(reps.drop_last(), x, y) is Some {
        first_near(reps.drop_last(), x, y)
    } else if near(reps.last(), x, y) {
        Some(reps.last())
    } else {
        None
    }
}

/// The places that stand for the parts of `s`: a part with no place near it
/// stands for itself.
pub open spec fn places_of(s: Seq<PartRect>) -> Seq<Place>
    decreases s.len(),
{
    if s.len() == 0 {
        Seq::empty()
    } else {
        let before = places_of(s.drop_last());
        let r = s.last();
        if r.grp == 0 && first_near(before, r.kx, r.ky) is None {
            before.push((r.kx, r.ky))
        } else {
            before
        }
    }
}

/// What parts of one entity have in common: its serial number, or the place
/// that stands for them.
#[derive(Clone, Copy, PartialEq, Eq, Structural, Debug)]
pub enum EntityKey {
    Serial(u32),
    At(i32, i32),
}

/// The entity that a part belongs to.
pub open spec fn entity_of(s: Seq<PartRect>, r: PartRect) -> EntityKey {
    if r.grp != 0 {
        EntityKey::Serial(r.grp)
    } else {
        match first_near(places_of(s), r.kx, r.ky) {
            Some(p) => EntityKey::At(p.0, p.1),
            None => EntityKey::At(r.kx, r.ky),
        }
    }
}

/// A near place stays the first near one when more places come behind it.
proof fn lemma_first_near_stays(s: Seq<PartRect>, n: int, x: i32, y: i32)
    requires
        0 <= n <= s.len(),
        first_near(places_of(s.take(n)), x, y) is Some,
    ensures
        first_near(places_of(s), x, y) == first_near(places_of(s.take(n)), x, y),
    decreases s.len(),
{
    if n == s.len() {
        assert(s.take(n) =~= s);
    } else {
        let d = s.drop_last();
        assert(d.take(n) =~= s.take(n));
        lemma_first_near_stays(d, n, x, y);
        let before = places_of(d);
        let after = places_of(s);
        if after != before {
            assert(after.drop_last() =~= before);
        }
    }
}

/// A part has a place from the moment it was seen.
proof fn lemma_part_has_place(s: Seq<PartRect>, i: int)
    requires
        0 <= i < s.len(),
        s[i].grp == 0,
    ensures
        first_near(places_of(s.take(i + 1)), s[i].kx, s[i].ky) is Some,
        first_near(places_of(s), s[i].kx, s[i].ky) == first_near(
            places_of(s.take(i + 1)),
            s[i].kx,
            s[i].ky,
        ),
{
    let t0 = s.take(i);
    let t1 = s.take(i + 1);
    assert(t1.drop_last() =~= t0);
    assert(t1.last() == s[i]);
    let before = places_of(t0);
    let after = places_of(t1);
    if first_near(before, s[i].kx, s[i].ky) is None {
        assert(after.drop_last() =~= before);
        assert(near(after.last(), s[i].kx, s[i].ky));
    }
    lemma_first_near_stays(s, i + 1, s[i].kx, s[i].ky);
}

fn gap_of(a: i32, b: i32) -> (r: i64)
    ensures
        r == gap(a, b),
{
    if a >= b {
        a as i64 - b as i64
    } else {
        b as i64 - a as i64
    }
}

fn find_near(reps: &Vec<Place>, x: i32, y: i32) -> (r: Option<Place>)
    ensures
        r == first_near(reps@, x, y),
{
    let mut i: usize = 0;
    while i < reps.len()
        invariant
            i <= reps.len(),
            first_near(reps@.take(i as int), x, y) is None,
        decreases reps.len() - i,
    {
        let p: Place = reps[i];
        assert(reps@.take(i + 1).drop_last() =~= reps@.take(i as int));
        if gap_of(p.0, x) <= CLUSTER_REACH && gap_of(p.1, y) <= CLUSTER_REACH {
            proof {
                lemma_near_prefix(reps@, i + 1, x, y);
            }
            return Some(p);
        }
        i = i + 1;
    }
    assert(reps@.take(i as int) =~= reps@);
    None
}

proof fn lemma_near_prefix(reps: Seq<Place>, n: int, x: i32, y: i32)
    requires
        0 <= n <= reps.len(),
        first_near(reps.take(n), x, y) is Some,
    ensures
        first_near(reps, x, y) == first_near(reps.take(n), x, y),
    decreases reps.len(),
{
    if n == reps.len() {
        assert(reps.take(n) =~= reps);
    } else {
        assert(reps.drop_last().take(n) =~= reps.take(n));
        lemma_near_prefix(reps.drop_last(), n, x, y);
    }
}

/// The entity of every part.
fn entity_keys(s: &Vec<PartRect>) -> (r: Vec<EntityKey>)
    ensures
        r.len() == s.len(),
        forall|i: int| 0 <= i < s.len() ==> #[trigger] r@[i] == entity_of(s@, s@[i]),
{
    let mut reps: Vec<Place> = Vec::new();
    let mut keys: Vec<EntityKey> = Vec::new();
    let mut i: usize = 0;
    while i < s.len()
        invariant
            i <= s.len(),
            keys.len() == i,
            reps@ == places_of(s@.take(i as int)),
            forall|k: int| 0 <= k < i ==> #[trigger] keys@[k] == entity_of(s@, s@[k]),
        decreases s.len() - i,
    {
        let r: PartRect = s[i];
        let ghost t1 = s@.take(i + 1);
        assert(t1.drop_last() =~= s@.take(i as int));
        assert(t1.last() == r);
        if r.grp != 0 {
            keys.push(EntityKey::Serial(r.grp));
        } else {
            proof {
                lemma_part_has_place(s@, i as int);
            }
            match find_near(&reps, r.kx, r.ky) {
                Some(p) => {
                    keys.push(EntityKey::At(p.0, p.1));
                },
                None => {
                    let ghost reps0 = reps@;
                    reps.push((r.kx, r.ky));
                    assert(reps@.drop_last() =~= reps0);
                    keys.push(EntityKey::At(r.kx, r.ky));
                },
            }
        }
        i = i + 1;
    }
    assert(s@.take(i as int) =~= s@);
    keys
}

/// Where an entity stands: the lowest of its parts' lower edges with that part's
/// centre, and how far its parts' positions reach.
#[derive(Clone, Copy, PartialEq, Eq, Structural, Debug)]
pub struct Feet {
    pub vb: i32,
    pub uc: i32,
    pub kx0: i32,
    pub kx1: i32,
    pub ky0: i32,
    pub ky1: i32,
}

pub open spec fn feet_alone(r: PartRect) -> Feet {
    Feet { vb: r.vb, uc: r.uc, kx0: r.kx, kx1: r.kx, ky0: r.ky, ky1: r.ky }
}

pub open spec fn feet_joined(f: Feet, r: PartRect) -> Feet {
    Feet {
        vb: if r.vb > f.vb {
            r.vb
        } else {
            f.vb
        },
        uc: if r.vb > f.vb {
            r.uc
        } else {
            f.uc
        },
        kx0: smaller(f.kx0, r.kx),
        kx1: larger(f.kx1, r.kx),
        ky0: smaller(f.ky0, r.ky),
        ky1: larger(f.ky1, r.ky),
    }
}

/// The feet of the entity `key` among the first `n` parts.
pub open spec fn feet_of(s: Seq<PartRect>, key: EntityKey, n: int) -> Option<Feet>
    decreases n,
{
    if n <= 0 {
        None
    } else {
        let before = feet_of(s, key, n - 1);
        if entity_of(s, s[n - 1]) == key {
            match before {
                Some(f) => Some(feet_joined(f, s[n - 1])),
                None => Some(feet_alone(s[n - 1])),
            }
        } else {
            before
        }
    }
}

pub open spec fn spread(f: Feet) -> int {
    let dx = f.kx1 - f.kx0;
    let dy = f.ky1 - f.ky0;
    if dx >= dy {
        dx
    } else {
        dy
    }
}

/// Where a part is anchored: at the feet of its entity, or at its own lower edge
/// where the entity is long.
pub open spec fn anchor_of(s: Seq<PartRect>, i: int) -> (i32, i32) {
    match feet_of(s, entity_of(s, s[i]), s.len() as int) {
        Some(f) => if spread(f) > 768 {
            (s[i].vb, s[i].uc)
        } else {
            (f.vb, f.uc)
        },
        None => (s[i].vb, s[i].uc),
    }
}

fn find_key(keys: &Vec<EntityKey>, key: EntityKey) -> (r: Option<usize>)
    ensures
        r matches Some(i) ==> i < keys.len() && keys@[i as int] == key,
        r is None ==> !keys@.contains(key),
{
    let mut i: usize = 0;
    while i < keys.len()
        invariant
            i <= keys.len(),
            forall|k: int| 0 <= k < i ==> keys@[k] != key,
        decreases keys.len() - i,
    {
        if keys[i] == key {
            return Some(i);
        }
        i = i + 1;
    }
    None
}

proof fn lemma_feet_exist(s: Seq<PartRect>, key: EntityKey, n: int)
    requires
        0 <= n <= s.len(),
    ensures
        feet_of(s, key, n) is Some <==> exists|i: int| 0 <= i < n && entity_of(s, #[trigger] s[i]) == key,
    decreases n,
{
    if n > 0 {
        lemma_feet_exist(s, key, n - 1);
        if entity_of(s, s[n - 1]) == key {
            assert(entity_of(s, s[n - 1]) == key);
        }
    }
}

/// Where every standing part is anchored, so that all parts of a building stand
/// on the same line.
pub fn anchors(s: &Vec<PartRect>) -> (r: Vec<(i32, i32)>)
    ensures
        r.len() == s.len(),
        forall|i: int| 0 <= i < s.len() ==> #[trigger] r@[i] == anchor_of(s@, i),
{
    let keys: Vec<EntityKey> = entity_keys(s);
    let ghost g = s@;
    let mut seen: Vec<EntityKey> = Vec::new();
    let mut feet: Vec<Feet> = Vec::new();
    let mut i: usize = 0;
    while i < s.len()
        invariant
            i <= s.len(),
            g == s@,
            keys.len() == s.len(),
            forall|k: int| 0 <= k < s.len() ==> #[trigger] keys@[k] == entity_of(g, g[k]),
            seen.len() == feet.len(),
            seen@.no_duplicates(),
            forall|k: int| 0 <= k < seen.len() ==> feet_of(g, #[trigger] seen@[k], i as int) == Some(feet@[k]),
            forall|k: int| 0 <= k < i ==> seen@.contains(entity_of(g, #[trigger] g[k])),
        decreases s.len() - i,
    {
        let r: PartRect = s[i];
        let key: EntityKey = keys[i];
        let ghost seen0 = seen@;
        let ghost feet0 = feet@;
        match find_key(&seen, key) {
            Some(at) => {
                let f: Feet = feet[at];
                let lower: bool = r.vb > f.vb;
                let n = Feet {
                    vb: if lower {
                        r.vb
                    } else {
                        f.vb
                    },
                    uc: if lower {
                        r.uc
                    } else {
                        f.uc
                    },
                    kx0: min32(f.kx0, r.kx),
                    kx1: max32(f.kx1, r.kx),
                    ky0: min32(f.ky0, r.ky),
                    ky1: max32(f.ky1, r.ky),
                };
                feet.set(at, n);
                proof {
                    assert forall|k: int| 0 <= k < seen@.len() implies feet_of(g, #[trigger] seen@[k], i + 1) == Some(feet@[k]) by {
                        assert(feet_of(g, seen0[k], i as int) == Some(feet0[k]));
                        if k != at {
                            assert(seen0[k] != seen0[at as int]);
                        }
                    }
                }
            },
            None => {
                seen.push(key);
                feet.push(
                    Feet { vb: r.vb, uc: r.uc, kx0: r.kx, kx1: r.kx, ky0: r.ky, ky1: r.ky },
                );
                proof {
                    lemma_feet_exist(g, key, i as int);
                    if feet_of(g, key, i as int) is Some {
                        let k = choose|k: int| 0 <= k < i && entity_of(g, #[trigger] g[k]) == key;
                        assert(seen0.contains(key));
                    }
                    assert forall|k: int| 0 <= k < seen@.len() implies feet_of(g, #[trigger] seen@[k], i + 1) == Some(feet@[k]) by {
                        if k < seen0.len() {
                            assert(feet_of(g, seen0[k], i as int) == Some(feet0[k]));
                            assert(seen0.contains(seen0[k]));
                        }
                    }
                    assert forall|a: int, b: int| 0 <= a < seen@.len() && 0 <= b < seen@.len() && a != b implies seen@[a] != seen@[b] by {
                        if a < seen0.len() {
                            assert(seen0.contains(seen0[a]));
                        }
                        if b < seen0.len() {
                            assert(seen0.contains(seen0[b]));
                        }
                    }
                }
            },
        }
        proof {
            assert forall|k: int| 0 <= k < i + 1 implies seen@.contains(entity_of(g, #[trigger] g[k])) by {
                if k < i {
                    let j = choose|j: int| 0 <= j < seen0.len() && seen0[j] == entity_of(g, g[k]);
                    assert(seen@[j] == entity_of(g, g[k]));
                } else {
                    let e = entity_of(g, g[k]);
                    if seen0.contains(e) {
                        let j = choose|j: int| 0 <= j < seen0.len() && seen0[j] == e;
                        assert(seen@[j] == e);
                    } else {
                        assert(seen@[seen0.len() as int] == e);
                    }
                }
            }
        }
        i = i + 1;
    }
    let mut out: Vec<(i32, i32)> = Vec::new();
    let mut i: usize = 0;
    while i < s.len()
        invariant
            i <= s.len(),
            g == s@,
            keys.len() == s.len(),
            forall|k: int| 0 <= k < s.len() ==> #[trigger] keys@[k] == entity_of(g, g[k]),
            seen.len() == feet.len(),
            forall|k: int| 0 <= k < seen.len() ==> feet_of(g, #[trigger] seen@[k], g.len() as int) == Some(feet@[k]),
            forall|k: int| 0 <= k < s.len() ==> seen@.contains(entity_of(g, #[trigger] g[k])),
            out.len() == i,
            forall|k: int| 0 <= k < i ==> #[trigger] out@[k] == anchor_of(g, k),
        decreases s.len() - i,
    {
        let r: PartRect = s[i];
        assert(seen@.contains(entity_of(g, g[i as int])));
        match find_key(&seen, keys[i]) {
            Some(at) => {
                let f: Feet = feet[at];
                assert(feet_of(g, seen@[at as int], g.len() as int) == Some(f));
                let dx: i64 = f.kx1 as i64 - f.kx0 as i64;
                let dy: i64 = f.ky1 as i64 - f.ky0 as i64;
                if dx > MAX_SPREAD || dy > MAX_SPREAD {
                    out.push((r.vb, r.uc));
                } else {
                    out.push((f.vb, f.uc));
                }
            },
            None => {
                out.push((r.vb, r.uc));
            },
        }
        i = i + 1;
    }
    out
}

/// The parts that belong to no moving entity.
pub fn standing_parts(rects: &Vec<PartRect>) -> (r: Vec<PartRect>)
    ensures
        r@ == standing(rects@),
{
    let mut r: Vec<PartRect> = Vec::new();
    let mut i: usize = 0;
    proof {
        reveal(Seq::filter);
        assert(rects@.take(0) =~= Seq::<PartRect>::empty());
    }
    while i < rects.len()
        invariant
            i <= rects.len(),
            r@ == standing(rects@.take(i as int)),
        decreases rects.len() - i,
    {
        proof {
            reveal(Seq::filter);
            assert(rects@.take(i + 1).drop_last() =~= rects@.take(i as int));
        }
        if !(rects[i].special && rects[i].grp != 0) {
            r.push(rects[i]);
        }
        i = i + 1;
    }
    assert(rects@.take(i as int) =~= rects@);
    r
}

/// All parts of one building stand on the same line, unless the entity is long.
pub proof fn lemma_building_on_one_line(s: Seq<PartRect>, i: int, j: int)
    requires
        0 <= i < s.len(),
        0 <= j < s.len(),
        entity_of(s, s[i]) == entity_of(s, s[j]),
        feet_of(s, entity_of(s, s[i]), s.len() as int) matches Some(f) && spread(f) <= 768,
    ensures
        anchor_of(s, i) == anchor_of(s, j),
{
}

/// The first of the parts of an entity that reach lowest.
proof fn lemma_feet_are_lowest(s: Seq<PartRect>, key: EntityKey, n: int)
    requires
        0 <= n <= s.len(),
    ensures
        feet_of(s, key, n) matches Some(f) ==> {
            &&& exists|k: int|
                0 <= k < n && entity_of(s, #[trigger] s[k]) == key && f.vb == s[k].vb && f.uc == s[k].uc && (
                forall|j: int|
                    0 <= j < k && entity_of(s, #[trigger] s[j]) == key ==> s[j].vb < s[k].vb)
            &&& forall|j: int|
                0 <= j < n && entity_of(s, #[trigger] s[j]) == key ==> s[j].vb <= f.vb && f.kx0
                    <= s[j].kx <= f.kx1 && f.ky0 <= s[j].ky <= f.ky1
            &&& exists|a: int| 0 <= a < n && entity_of(s, #[trigger] s[a]) == key && s[a].kx == f.kx0
            &&& exists|a: int| 0 <= a < n && entity_of(s, #[trigger] s[a]) == key && s[a].kx == f.kx1
            &&& exists|a: int| 0 <= a < n && entity_of(s, #[trigger] s[a]) == key && s[a].ky == f.ky0
            &&& exists|a: int| 0 <= a < n && entity_of(s, #[trigger] s[a]) == key && s[a].ky == f.ky1
        },
    decreases n,
{
    if n > 0 {
        lemma_feet_are_lowest(s, key, n - 1);
        lemma_feet_exist(s, key, n - 1);
        let r = s[n - 1];
        if entity_of(s, r) == key {
            match feet_of(s, key, n - 1) {
                Some(f) => {
                    let k = choose|k: int|
                        0 <= k < n - 1 && entity_of(s, #[trigger] s[k]) == key && f.vb == s[k].vb && f.uc
                            == s[k].uc && (forall|j: int|
                            0 <= j < k && entity_of(s, #[trigger] s[j]) == key ==> s[j].vb < s[k].vb);
                    assert(entity_of(s, s[k]) == key);
                    let a = choose|a: int| 0 <= a < n - 1 && entity_of(s, #[trigger] s[a]) == key && s[a].kx == f.kx0;
                    let b = choose|a: int| 0 <= a < n - 1 && entity_of(s, #[trigger] s[a]) == key && s[a].kx == f.kx1;
                    let c = choose|a: int| 0 <= a < n - 1 && entity_of(s, #[trigger] s[a]) == key && s[a].ky == f.ky0;
                    let d = choose|a: int| 0 <= a < n - 1 && entity_of(s, #[trigger] s[a]) == key && s[a].ky == f.ky1;
                    assert(entity_of(s, s[a]) == key && entity_of(s, s[b]) == key);
                    assert(entity_of(s, s[c]) == key && entity_of(s, s[d]) == key);
                },
                None => {},
            }
        }
    }
}

/// A building stands on the lowest of the lower edges of its parts, in whatever
/// order they were recorded, and beneath the first part that reaches it. An entity
/// with two parts more than three tiles apart on an axis is long: each of its
/// parts stands on its own lower edge.
pub proof fn lemma_stands_on_lowest_edge(v: &Vec<PartRect>, r: Vec<(i32, i32)>, i: int)
    requires
        call_ensures(anchors, (v,), r),
        0 <= i < v@.len(),
    ensures
        ({
            let s = v@;
            let e = entity_of(s, s[i]);
            let long = exists|a: int, b: int|
                0 <= a < s.len() && 0 <= b < s.len() && entity_of(s, #[trigger] s[a]) == e && entity_of(
                    s,
                    #[trigger] s[b],
                ) == e && (s[a].kx - s[b].kx > 768 || s[a].ky - s[b].ky > 768);
            &&& r@.len() == s.len()
            &&& long ==> r@[i] == (s[i].vb, s[i].uc)
            &&& !long ==> {
                &&& forall|j: int|
                    0 <= j < s.len() && entity_of(s, #[trigger] s[j]) == e ==> s[j].vb <= r@[i].0
                &&& exists|k: int|
                    0 <= k < s.len() && entity_of(s, #[trigger] s[k]) == e && r@[i] == (
                    s[k].vb,
                    s[k].uc,
                    ) && (forall|j: int|
                        0 <= j < k && entity_of(s, #[trigger] s[j]) == e ==> s[j].vb < s[k].vb)
            }
        }),
{
    let s = v@;
    let e = entity_of(s, s[i]);
    let n = s.len() as int;
    lemma_feet_exist(s, e, n);
    lemma_feet_are_lowest(s, e, n);
    assert(r@[i] == anchor_of(s, i));
    let f = feet_of(s, e, n)->0;
    let a = choose|a: int| 0 <= a < n && entity_of(s, #[trigger] s[a]) == e && s[a].kx == f.kx0;
    let b = choose|a: int| 0 <= a < n && entity_of(s, #[trigger] s[a]) == e && s[a].kx == f.kx1;
    let c = choose|a: int| 0 <= a < n && entity_of(s, #[trigger] s[a]) == e && s[a].ky == f.ky0;
    let d = choose|a: int| 0 <= a < n && entity_of(s, #[trigger] s[a]) == e && s[a].ky == f.ky1;
    if spread(f) > 768 {
        if f.kx1 - f.kx0 > 768 {
            assert(s[b].kx - s[a].kx > 768);
        } else {
            assert(s[d].ky - s[c].ky > 768);
        }
    }
}

proof fn lemma_near_is_near(reps: Seq<Place>, x: i32, y: i32)
    ensures
        first_near(reps, x, y) matches Some(p) ==> near(p, x, y) && reps.contains(p),
        first_near(reps, x, y) is None ==> forall|i: int| 0 <= i < reps.len() ==> !near(#[trigger] reps[i], x, y),
    decreases reps.len(),
{
    if reps.len() > 0 {
        lemma_near_is_near(reps.drop_last(), x, y);
        let d = reps.drop_last();
        match first_near(d, x, y) {
            Some(p) => {
                let k = choose|k: int| 0 <= k < d.len() && d[k] == p;
                assert(reps[k] == p);
            },
            None => {
                assert(reps[reps.len() - 1] == reps.last());
                assert forall|i: int| 0 <= i < reps.len() && first_near(reps, x, y) is None implies !near(#[trigger] reps[i], x, y) by {
                    if i < d.len() {
                        assert(!near(d[i], x, y));
                    }
                }
            },
        }
    }
}

/// A part without a serial number is within reach of the place that stands for
/// it, and no two places are within reach of each other.
pub proof fn lemma_clusters(s: Seq<PartRect>, i: int)
    requires
        0 <= i < s.len(),
        s[i].grp == 0,
    ensures
        entity_of(s, s[i]) matches EntityKey::At(x, y) && near((x, y), s[i].kx, s[i].ky),
        forall|a: int, b: int|
            0 <= a < b < places_of(s).len() ==> !near(
                #[trigger] places_of(s)[a],
                (#[trigger] places_of(s)[b]).0,
                places_of(s)[b].1,
            ),
{
    lemma_part_has_place(s, i);
    lemma_near_is_near(places_of(s), s[i].kx, s[i].ky);
    lemma_places_apart(s);
}

proof fn lemma_places_apart(s: Seq<PartRect>)
    ensures
        forall|a: int, b: int|
            0 <= a < b < places_of(s).len() ==> !near(
                #[trigger] places_of(s)[a],
                (#[trigger] places_of(s)[b]).0,
                places_of(s)[b].1,
            ),
    decreases s.len(),
{
    if s.len() > 0 {
        lemma_places_apart(s.drop_last());
        let r = s.last();
        lemma_near_is_near(places_of(s.drop_last()), r.kx, r.ky);
    }
}

/// Keys by which the farthest comes first.
pub open spec fn far_first(depths: Seq<i32>) -> Seq<i64> {
    depths.map_values(|d: i32| (-d) as i64)
}

/// The quads in the order in which they are drawn: the farthest first, quads of
/// the same depth as they were recorded. Beyond the limit the farthest are
/// dropped, so that the near field survives.
pub fn order_quads(depths: &Vec<i32>) -> (r: Vec<usize>)
    ensures
        exists|all: Seq<usize>| #[trigger]
            stable_order(far_first(depths@), all) && r@ == if all.len() > MAX_BILLBOARDS {
                all.skip(all.len() - MAX_BILLBOARDS)
            } else {
                all
            },
{
    let mut keys: Vec<i64> = Vec::new();
    let ghost want = far_first(depths@);
    let mut i: usize = 0;
    while i < depths.len()
        invariant
            i <= depths.len(),
            want == far_first(depths@),
            keys@ == want.take(i as int),
        decreases depths.len() - i,
    {
        keys.push(-(depths[i] as i64));
        assert(want.take(i + 1) =~= want.take(i as int).push(want[i as int]));
        i = i + 1;
    }
    assert(want.take(i as int) =~= want);
    let all: Vec<usize> = order_by_key(&keys);
    if all.len() <= MAX_BILLBOARDS {
        return all;
    }
    let from: usize = all.len() - MAX_BILLBOARDS;
    let mut r: Vec<usize> = Vec::new();
    let mut k: usize = from;
    while k < all.len()
        invariant
            from <= k <= all.len(),
            r@ == all@.subrange(from as int, k as int),
        decreases all.len() - k,
    {
        r.push(all[k]);
        assert(all@.subrange(from as int, k + 1) =~= all@.subrange(from as int, k as int).push(all@[k as int]));
        k = k + 1;
    }
    assert(r@ =~= all@.skip(from as int));
    r
}

/// Whatever the limit drops is no nearer than what it keeps.
pub proof fn lemma_limit_keeps_near(depths: Seq<i32>, all: Seq<usize>, cut: int, i: int, j: int)
    requires
        stable_order(far_first(depths), all),
        0 <= i < cut <= j < all.len(),
    ensures
        depths[all[i] as int] >= depths[all[j] as int],
{
    let keys = far_first(depths);
    assert(crate::order::before(keys, all[i], all[j]));
}

/// The tile that is drawn anew every frame.
pub const LIVE_TILE: usize = 4;

/// Which tile a standing quad is drawn from: what moves uses the live tile where
/// it is inside it, what stands the tile of its cell where that is covered.
pub fn hi_tile(hi_ok: bool, special: bool, in_live: bool, grid: usize, tx: usize, ty: usize, covered: &Vec<bool>) -> (r: Option<usize>)
    requires
        1 <= grid <= 2,
        tx < grid,
        ty < grid,
        covered.len() == 5,
    ensures
        r == if !hi_ok {
            None
        } else if special {
            if in_live {
                Some(LIVE_TILE)
            } else {
                None
            }
        } else if covered@[ty * grid + tx] {
            Some((ty * grid + tx) as usize)
        } else {
            None
        },
        r matches Some(t) ==> t < 5,
{
    if !hi_ok {
        return None;
    }
    if special {
        return if in_live {
            Some(LIVE_TILE)
        } else {
            None
        };
    }
    assert(ty * grid + tx < 4) by (nonlinear_arith)
        requires
            1 <= grid <= 2,
            0 <= tx < grid,
            0 <= ty < grid,
    ;
    assert(ty * grid <= 2) by (nonlinear_arith)
        requires
            1 <= grid <= 2,
            0 <= ty < grid,
    ;
    let t: usize = ty * grid + tx;
    if covered[t] {
        Some(t)
    } else {
        None
    }
}

/// Whether the view is turned, tilted or pulled out; angles are in tenths of a
/// degree.
pub fn is_rotated(yaw: i32, pitch: i32, pulled_out: bool) -> (r: bool)
    ensures
        r == (yaw > 10 || yaw < -10 || pitch > 910 || pitch < 890 || pulled_out),
{
    yaw > 10 || yaw < -10 || pitch > 910 || pitch < 890 || pulled_out
}

/// The layers that are captured apart from the ground.
#[derive(Clone, Copy, PartialEq, Eq, Structural, Debug)]
pub enum Layer {
    Belt,
    Elevated,
    Wire,
    Object,
}

/// What is done with the captured layers after the world has been drawn.
#[derive(Clone, Copy, PartialEq, Eq, Structural, Debug)]
pub enum AfterRender {
    /// The view is plain: what was captured is laid back on it, and picking is
    /// plain too.
    ComposeFlat,
    /// The view is turned, with the captured layers.
    WarpWithLayers,
    /// The view is turned without them: they are of another size.
    WarpAlone,
}

/// What is done after the world has been drawn. Captured layers only fit a
/// target of their own size.
pub fn after_render(rotated: bool, captured: Option<(u32, u32)>, target: (u32, u32)) -> (r: AfterRender)
    ensures
        r == if !rotated {
            AfterRender::ComposeFlat
        } else if captured == Some(target) {
            AfterRender::WarpWithLayers
        } else {
            AfterRender::WarpAlone
        },
{
    if !rotated {
        return AfterRender::ComposeFlat;
    }
    match captured {
        Some(c) => if c.0 == target.0 && c.1 == target.1 {
            AfterRender::WarpWithLayers
        } else {
            AfterRender::WarpAlone
        },
        None => AfterRender::WarpAlone,
    }
}

/// The layers that are laid back on a plain view, in order.
pub open spec fn flat_order(belt: bool, elevated: bool, wire: bool, object: bool) -> Seq<Layer> {
    let a = if belt {
        seq![Layer::Belt]
    } else {
        Seq::<Layer>::empty()
    };
    let b = if elevated {
        a.push(Layer::Elevated)
    } else {
        a
    };
    let c = if wire {
        b.push(Layer::Wire)
    } else {
        b
    };
    if object {
        c.push(Layer::Object)
    } else {
        c
    }
}

/// The layers that are laid back on a plain view, in order.
pub fn flat_layers(belt: bool, elevated: bool, wire: bool, object: bool) -> (r: Vec<Layer>)
    ensures
        r@ == flat_order(belt, elevated, wire, object),
{
    let mut r: Vec<Layer> = Vec::new();
    if belt {
        r.push(Layer::Belt);
    }
    assert(r@ =~= if belt {
        seq![Layer::Belt]
    } else {
        Seq::<Layer>::empty()
    });
    if elevated {
        r.push(Layer::Elevated);
    }
    if wire {
        r.push(Layer::Wire);
    }
    if object {
        r.push(Layer::Object);
    }
    r
}

proof fn lemma_place_of_part(s: Seq<PartRect>, m: int)
    requires
        0 <= m < places_of(s).len(),
    ensures
        exists|j: int|
            0 <= j < s.len() && (#[trigger] s[j]).grp == 0 && places_of(s)[m] == (s[j].kx, s[j].ky)
                && places_of(s.take(j)).len() == m,
    decreases s.len(),
{
    let d = s.drop_last();
    if m < places_of(d).len() {
        lemma_place_of_part(d, m);
        let j = choose|j: int|
            0 <= j < d.len() && (#[trigger] d[j]).grp == 0 && places_of(d)[m] == (d[j].kx, d[j].ky) && places_of(
                d.take(j),
            ).len() == m;
        assert(d.take(j) =~= s.take(j));
        assert(s[j] == d[j]);
    } else {
        let j = s.len() - 1;
        assert(s.take(j) =~= d);
        assert(s[j].grp == 0);
    }
}

proof fn lemma_places_prefix(s: Seq<PartRect>, n: int)
    requires
        0 <= n <= s.len(),
    ensures
        places_of(s.take(n)).len() <= places_of(s).len(),
        forall|m: int| 0 <= m < places_of(s.take(n)).len() ==> places_of(s.take(n))[m] == places_of(s)[m],
    decreases s.len(),
{
    if n == s.len() {
        assert(s.take(n) =~= s);
    } else {
        assert(s.drop_last().take(n) =~= s.take(n));
        lemma_places_prefix(s.drop_last(), n);
    }
}

proof fn lemma_first_near_index(reps: Seq<Place>, x: i32, y: i32)
    ensures
        first_near(reps, x, y) matches Some(p) ==> exists|m: int|
            0 <= m < reps.len() && #[trigger] reps[m] == p && near(p, x, y) && forall|l: int|
                0 <= l < m ==> !near(#[trigger] reps[l], x, y),
    decreases reps.len(),
{
    if reps.len() > 0 {
        let d = reps.drop_last();
        lemma_first_near_index(d, x, y);
        lemma_near_is_near(d, x, y);
        match first_near(d, x, y) {
            Some(p) => {
                let m = choose|m: int|
                    0 <= m < d.len() && #[trigger] d[m] == p && near(p, x, y) && forall|l: int|
                        0 <= l < m ==> !near(#[trigger] d[l], x, y);
                assert(reps[m] == p);
                assert forall|l: int| 0 <= l < m implies !near(#[trigger] reps[l], x, y) by {
                    assert(d[l] == reps[l]);
                }
            },
            None => {
                let m = reps.len() - 1;
                assert(reps[m] == reps.last());
                assert forall|l: int| 0 <= l < m implies !near(#[trigger] reps[l], x, y) by {
                    assert(d[l] == reps[l]);
                }
            },
        }
    }
}

/// Which parts are of one building. With a serial number it is those with the same
/// one. Without, a part belongs to the place of a part that was recorded no later,
/// that stands for itself, and that is no more than three quarters of a tile away on
/// either axis; where there are several, to the one recorded first.
pub proof fn lemma_parts_of_one_building(s: Seq<PartRect>, i: int)
    requires
        0 <= i < s.len(),
    ensures
        s[i].grp != 0 ==> entity_of(s, s[i]) == EntityKey::Serial(s[i].grp),
        s[i].grp == 0 ==> exists|j: int|
            {
                &&& 0 <= j <= i
                &&& (#[trigger] s[j]).grp == 0
                &&& entity_of(s, s[i]) == EntityKey::At(s[j].kx, s[j].ky)
                &&& entity_of(s, s[j]) == EntityKey::At(s[j].kx, s[j].ky)
                &&& -192 <= s[j].kx - s[i].kx <= 192
                &&& -192 <= s[j].ky - s[i].ky <= 192
                &&& forall|k: int|
                    0 <= k < j && (#[trigger] s[k]).grp == 0 && entity_of(s, s[k]) == EntityKey::At(
                        s[k].kx,
                        s[k].ky,
                    ) ==> !(-192 <= s[k].kx - s[i].kx <= 192 && -192 <= s[k].ky - s[i].ky <= 192)
            },
{
    if s[i].grp == 0 {
        let reps = places_of(s);
        lemma_part_has_place(s, i);
        lemma_places_apart(s);
        let p = first_near(reps, s[i].kx, s[i].ky)->0;
        lemma_first_near_index(reps, s[i].kx, s[i].ky);
        let m = choose|m: int|
            0 <= m < reps.len() && #[trigger] reps[m] == p && near(p, s[i].kx, s[i].ky) && forall|l: int|
                0 <= l < m ==> !near(#[trigger] reps[l], s[i].kx, s[i].ky);
        lemma_place_of_part(s, m);
        let j = choose|j: int|
            0 <= j < s.len() && (#[trigger] s[j]).grp == 0 && reps[m] == (s[j].kx, s[j].ky) && places_of(
                s.take(j),
            ).len() == m;
        let t1 = s.take(i + 1);
        lemma_first_near_index(places_of(t1), s[i].kx, s[i].ky);
        lemma_places_prefix(s, i + 1);
        let m1 = choose|m1: int|
            0 <= m1 < places_of(t1).len() && #[trigger] places_of(t1)[m1] == p && near(p, s[i].kx, s[i].ky)
                && forall|l: int| 0 <= l < m1 ==> !near(#[trigger] places_of(t1)[l], s[i].kx, s[i].ky);
        assert(reps[m1] == p);
        if m1 < m {
            assert(!near(reps[m1], s[i].kx, s[i].ky));
        }
        if m < m1 {
            assert(!near(reps[m], reps[m1].0, reps[m1].1));
        }
        assert(m < places_of(t1).len());
        if j > i {
            assert(s.take(j).take(i + 1) =~= t1);
            lemma_places_prefix(s.take(j), i + 1);
        }
        lemma_self_place(s, j);
        lemma_part_has_place(s, j);
        let pj = first_near(reps, s[j].kx, s[j].ky)->0;
        lemma_first_near_index(reps, s[j].kx, s[j].ky);
        let mj = choose|mj: int|
            0 <= mj < reps.len() && #[trigger] reps[mj] == pj && near(pj, s[j].kx, s[j].ky) && forall|l: int|
                0 <= l < mj ==> !near(#[trigger] reps[l], s[j].kx, s[j].ky);
        if mj < m {
            assert(!near(reps[mj], reps[m].0, reps[m].1));
        }
        if mj > m {
            assert(!near(reps[m], s[j].kx, s[j].ky));
        }
        assert(pj == p);
        assert forall|k: int|
            0 <= k < j && (#[trigger] s[k]).grp == 0 && entity_of(s, s[k]) == EntityKey::At(s[k].kx, s[k].ky) implies !(
        -192 <= s[k].kx - s[i].kx <= 192 && -192 <= s[k].ky - s[i].ky <= 192) by {
            lemma_part_has_place(s, k);
            let tk = s.take(k + 1);
            let pk = first_near(places_of(tk), s[k].kx, s[k].ky)->0;
            lemma_first_near_index(places_of(tk), s[k].kx, s[k].ky);
            let mk = choose|mk: int|
                0 <= mk < places_of(tk).len() && #[trigger] places_of(tk)[mk] == pk && near(
                    pk,
                    s[k].kx,
                    s[k].ky,
                ) && forall|l: int| 0 <= l < mk ==> !near(#[trigger] places_of(tk)[l], s[k].kx, s[k].ky);
            lemma_places_prefix(s, k + 1);
            assert(reps[mk] == (s[k].kx, s[k].ky));
            assert(s.take(j).take(k + 1) =~= tk);
            lemma_places_prefix(s.take(j), k + 1);
            assert(mk < m);
            assert(!near(reps[mk], s[i].kx, s[i].ky));
        }
        assert(s[j].grp == 0);
    }
}

/// A place is near itself.
proof fn lemma_self_place(s: Seq<PartRect>, j: int)
    requires
        0 <= j < s.len(),
    ensures
        near((s[j].kx, s[j].ky), s[j].kx, s[j].ky),
{
}

proof fn lemma_union(s: Seq<PartRect>, grp: u32, n: int)
    requires
        0 <= n <= s.len(),
    ensures
        union_of(s.take(n), grp) matches Some(g) ==> {
            &&& exists|i: int| 0 <= i < n && grouped(#[trigger] s[i]) && s[i].grp == grp && s[i].x0 == g.x0
            &&& exists|i: int| 0 <= i < n && grouped(#[trigger] s[i]) && s[i].grp == grp && s[i].x1 == g.x1
            &&& exists|i: int| 0 <= i < n && grouped(#[trigger] s[i]) && s[i].grp == grp && s[i].y0 == g.y0
            &&& exists|i: int| 0 <= i < n && grouped(#[trigger] s[i]) && s[i].grp == grp && s[i].y1 == g.y1
            &&& exists|i: int| 0 <= i < n && grouped(#[trigger] s[i]) && s[i].grp == grp && s[i].kx == g.kx0
            &&& exists|i: int| 0 <= i < n && grouped(#[trigger] s[i]) && s[i].grp == grp && s[i].kx == g.kx1
            &&& exists|i: int| 0 <= i < n && grouped(#[trigger] s[i]) && s[i].grp == grp && s[i].ky == g.ky0
            &&& exists|i: int| 0 <= i < n && grouped(#[trigger] s[i]) && s[i].grp == grp && s[i].ky == g.ky1
            &&& g.player <==> exists|i: int|
                0 <= i < n && grouped(#[trigger] s[i]) && s[i].grp == grp && s[i].player
            &&& g.unit <==> exists|i: int|
                0 <= i < n && grouped(#[trigger] s[i]) && s[i].grp == grp && s[i].unit
            &&& g.flat <==> exists|i: int|
                0 <= i < n && grouped(#[trigger] s[i]) && s[i].grp == grp && s[i].flat
            &&& g.fly <==> exists|i: int|
                0 <= i < n && grouped(#[trigger] s[i]) && s[i].grp == grp && s[i].fly
        },
        union_of(s.take(n), grp) is None ==> forall|i: int|
            0 <= i < n ==> !(grouped(#[trigger] s[i]) && s[i].grp == grp),
    decreases n,
{
    if n > 0 {
        lemma_union(s, grp, n - 1);
        assert(s.take(n).drop_last() =~= s.take(n - 1));
        assert(s.take(n).last() == s[n - 1]);
    }
}

/// A moving entity is drawn as one: its rectangle is the smallest that holds all of
/// its parts, it reaches as far on the map as they do, and it is what any of them is.
/// Parts that do not move, or have no serial number, are in none.
pub proof fn lemma_group_is_tight(rects: &Vec<PartRect>, r: Vec<SpecialGroup>, g: int, i: int)
    requires
        call_ensures(group_specials, (rects,), r),
        0 <= g < r@.len(),
        0 <= i < rects@.len(),
    ensures
        ({
            let s = rects@;
            let u = r@[g];
            let of = |k: int| 0 <= k < s.len() && s[k].special && s[k].grp != 0 && s[k].grp == u.grp;
            &&& of(i) ==> u.x0 <= s[i].x0 && s[i].x1 <= u.x1 && u.y0 <= s[i].y0 && s[i].y1 <= u.y1 && u.kx0
                <= s[i].kx <= u.kx1 && u.ky0 <= s[i].ky <= u.ky1
            &&& exists|k: int| #[trigger] of(k) && s[k].x0 == u.x0
            &&& exists|k: int| #[trigger] of(k) && s[k].x1 == u.x1
            &&& exists|k: int| #[trigger] of(k) && s[k].y0 == u.y0
            &&& exists|k: int| #[trigger] of(k) && s[k].y1 == u.y1
            &&& exists|k: int| #[trigger] of(k) && s[k].kx == u.kx0
            &&& exists|k: int| #[trigger] of(k) && s[k].kx == u.kx1
            &&& exists|k: int| #[trigger] of(k) && s[k].ky == u.ky0
            &&& exists|k: int| #[trigger] of(k) && s[k].ky == u.ky1
            &&& u.player <==> exists|k: int| #[trigger] of(k) && s[k].player
            &&& u.unit <==> exists|k: int| #[trigger] of(k) && s[k].unit
            &&& u.flat <==> exists|k: int| #[trigger] of(k) && s[k].flat
            &&& u.fly <==> exists|k: int| #[trigger] of(k) && s[k].fly
        }),
{
    let s = rects@;
    let u = r@[g];
    let of = |k: int| 0 <= k < s.len() && s[k].special && s[k].grp != 0 && s[k].grp == u.grp;
    assert(union_of(s, u.grp) == Some(u));
    assert(s.take(s.len() as int) =~= s);
    lemma_union(s, u.grp, s.len() as int);
    lemma_serials(s, u.grp);
    if of(i) {
        lemma_group_covers(s, i);
    }
    assert forall|k: int| 0 <= k < s.len() && grouped(#[trigger] s[k]) && s[k].grp == u.grp implies of(k) by {}
    let a = choose|i: int| 0 <= i < s.len() && grouped(#[trigger] s[i]) && s[i].grp == u.grp && s[i].x0 == u.x0;
    assert(of(a));
    let a = choose|i: int| 0 <= i < s.len() && grouped(#[trigger] s[i]) && s[i].grp == u.grp && s[i].x1 == u.x1;
    assert(of(a));
    let a = choose|i: int| 0 <= i < s.len() && grouped(#[trigger] s[i]) && s[i].grp == u.grp && s[i].y0 == u.y0;
    assert(of(a));
    let a = choose|i: int| 0 <= i < s.len() && grouped(#[trigger] s[i]) && s[i].grp == u.grp && s[i].y1 == u.y1;
    assert(of(a));
    let a = choose|i: int| 0 <= i < s.len() && grouped(#[trigger] s[i]) && s[i].grp == u.grp && s[i].kx == u.kx0;
    assert(of(a));
    let a = choose|i: int| 0 <= i < s.len() && grouped(#[trigger] s[i]) && s[i].grp == u.grp && s[i].kx == u.kx1;
    assert(of(a));
    let a = choose|i: int| 0 <= i < s.len() && grouped(#[trigger] s[i]) && s[i].grp == u.grp && s[i].ky == u.ky0;
    assert(of(a));
    let a = choose|i: int| 0 <= i < s.len() && grouped(#[trigger] s[i]) && s[i].grp == u.grp && s[i].ky == u.ky1;
    assert(of(a));
    if u.player {
        let a = choose|i: int| 0 <= i < s.len() && grouped(#[trigger] s[i]) && s[i].grp == u.grp && s[i].player;
        assert(of(a));
    }
    if u.unit {
        let a = choose|i: int| 0 <= i < s.len() && grouped(#[trigger] s[i]) && s[i].grp == u.grp && s[i].unit;
        assert(of(a));
    }
    if u.flat {
        let a = choose|i: int| 0 <= i < s.len() && grouped(#[trigger] s[i]) && s[i].grp == u.grp && s[i].flat;
        assert(of(a));
    }
    if u.fly {
        let a = choose|i: int| 0 <= i < s.len() && grouped(#[trigger] s[i]) && s[i].grp == u.grp && s[i].fly;
        assert(of(a));
    }
}

/// Quads are drawn from the farthest to the nearest, those of one depth as they were
/// recorded, each once and no more than 65536; those that are left out are no nearer
/// than any that is drawn.
pub proof fn lemma_quads_in_order(depths: &Vec<i32>, r: Vec<usize>, a: int, b: int, left: usize)
    requires
        call_ensures(order_quads, (depths,), r),
        0 <= a < b < r@.len(),
        left < depths@.len(),
        !r@.contains(left),
    ensures
        depths@[r@[a] as int] >= depths@[r@[b] as int],
        depths@[r@[a] as int] == depths@[r@[b] as int] ==> r@[a] < r@[b],
        depths@[left as int] >= depths@[r@[a] as int],
        depths@.len() > 65536,
        r@.len() == 65536,
{
    lemma_quads_are_drawn(depths, r, a, b);
    let n = depths@.len() as int;
    let all = choose|all: Seq<usize>| #[trigger]
        stable_order(far_first(depths@), all) && r@ == if all.len() > MAX_BILLBOARDS {
            all.skip(all.len() - MAX_BILLBOARDS)
        } else {
            all
        };
    crate::order::lemma_order_covers(all, n, left);
    let k = choose|k: int| 0 <= k < all.len() && all[k] == left;
    let cut: int = if all.len() > MAX_BILLBOARDS {
        all.len() - MAX_BILLBOARDS
    } else {
        0
    };
    if k >= cut {
        assert(r@[k - cut] == left);
    }
    assert(r@[a] == all[cut + a]);
    lemma_limit_keeps_near(depths@, all, cut, k, cut + a);
}

/// Quads are drawn from the farthest to the nearest, those of one depth as they were
/// recorded, and all of them where there are no more than 65536.
pub proof fn lemma_quads_are_drawn(depths: &Vec<i32>, r: Vec<usize>, a: int, b: int)
    requires
        call_ensures(order_quads, (depths,), r),
        0 <= a < b < r@.len(),
    ensures
        r@[a] < depths@.len() && r@[b] < depths@.len() && r@[a] != r@[b],
        depths@[r@[a] as int] >= depths@[r@[b] as int],
        depths@[r@[a] as int] == depths@[r@[b] as int] ==> r@[a] < r@[b],
        depths@.len() <= 65536 ==> r@.len() == depths@.len(),
        depths@.len() > 65536 ==> r@.len() == 65536,
{
    let all = choose|all: Seq<usize>| #[trigger]
        stable_order(far_first(depths@), all) && r@ == if all.len() > MAX_BILLBOARDS {
            all.skip(all.len() - MAX_BILLBOARDS)
        } else {
            all
        };
    let cut: int = if all.len() > MAX_BILLBOARDS {
        all.len() - MAX_BILLBOARDS
    } else {
        0
    };
    assert(r@[a] == all[cut + a] && r@[b] == all[cut + b]);
    let keys = far_first(depths@);
    assert(keys.len() == depths@.len());
    assert(crate::order::before(keys, all[cut + a], all[cut + b]));
    assert(keys[r@[a] as int] == -depths@[r@[a] as int]);
    assert(keys[r@[b] as int] == -depths@[r@[b] as int]);
}

/// A moving entity is drawn unless it is the player in first person. Wagons lie flat
/// and robots fly, whatever else they are; the player and enemies stand on their lower
/// edge, vehicles on their place on the map, as far as that is known.
pub proof fn lemma_how_groups_stand(g: &SpecialGroup, first_person: bool, view_known: bool, r: GroupAnchor)
    requires
        call_ensures(group_anchor, (g, first_person, view_known), r),
    ensures
        r == GroupAnchor::Hidden <==> g.player && first_person,
        !(g.player && first_person) && g.flat ==> r == GroupAnchor::Flat,
        !(g.player && first_person) && !g.flat && g.fly ==> r == GroupAnchor::Fly,
        r == GroupAnchor::MapPosition <==> view_known && !g.player && !g.unit && !g.flat && !g.fly,
{
}

/// The view counts as turned once it is off by more than a degree, whichever way, or
/// pulled out; a plain view is composed flat, and a turned one with its layers only
/// where they are of the target's size.
pub proof fn lemma_turned_views(yaw: i32, pitch: i32, out: bool, captured: Option<(u32, u32)>, target: (u32, u32), r: bool, a: AfterRender)
    requires
        call_ensures(is_rotated, (yaw, pitch, out), r),
        call_ensures(after_render, (r, captured, target), a),
    ensures
        !r <==> !out && -10 <= yaw <= 10 && -10 <= pitch - 900 <= 10,
        a == AfterRender::ComposeFlat <==> !r,
        a == AfterRender::WarpWithLayers <==> r && captured == Some(target),
{
}

/// The captured layers are laid back from the ground up: belts, elevated rails,
/// wires, and what stands up last; each where it was captured.
pub proof fn lemma_layers_from_the_ground(belt: bool, elevated: bool, wire: bool, object: bool, r: Vec<Layer>)
    requires
        call_ensures(flat_layers, (belt, elevated, wire, object), r),
    ensures
        r@.contains(Layer::Belt) == belt,
        r@.contains(Layer::Elevated) == elevated,
        r@.contains(Layer::Wire) == wire,
        r@.contains(Layer::Object) == object,
        belt ==> r@[0] == Layer::Belt,
        object ==> r@.last() == Layer::Object,
        elevated && wire ==> r@[r@.index_of(Layer::Elevated) + 1] == Layer::Wire,
        r@.no_duplicates(),
{
    let s = r@;
    if belt {
        assert(s[0] == Layer::Belt);
    }
    let e: int = if belt {
        1
    } else {
        0
    };
    if elevated {
        assert(s[e] == Layer::Elevated);
    }
    let w: int = if elevated {
        e + 1
    } else {
        e
    };
    if wire {
        assert(s[w] == Layer::Wire);
    }
    if object {
        assert(s[s.len() - 1] == Layer::Object);
    }
}

/// Every moving entity has one group.
pub proof fn lemma_every_entity_has_a_group(rects: &Vec<PartRect>, r: Vec<SpecialGroup>, i: int)
    requires
        call_ensures(group_specials, (rects,), r),
        0 <= i < rects@.len(),
        rects@[i].special,
        rects@[i].grp != 0,
    ensures
        exists|g: int| 0 <= g < r@.len() && (#[trigger] r@[g]).grp == rects@[i].grp,
{
    let s = rects@;
    lemma_group_covers(s, i);
    lemma_serials(s, s[i].grp);
    let all = serials_of(s);
    let k = choose|k: int| 0 <= k < all.len() && all[k] == s[i].grp;
    assert(r@.map_values(|g: SpecialGroup| g.grp)[k] == r@[k].grp);
}

} // verus!
