//! Loading of one model: which nodes it has and which of them move, the
//! animation that plays, the primitives and how they are merged, and the
//! decoding of its textures.
//!
//! Floating-point numbers pass through here as the bits of 32-bit floats.

use crate::geometry::{
    lemma_materials_cover, merge_prims, merged, merged_materials, prim_views, prims_fit, unmerged,
    PrimData, PrimSpec,
};
use crate::text::{
    contains, has_prefix, has_text, lowercase, starts_with, str_eq, strip_prefix, to_chars,
    to_lowercase,
};
use vstd::prelude::*;

verus! {

/// A node of the scene as the file holds it. The name is empty where the node has
/// none.
#[derive(Debug)]
pub struct SceneNode {
    pub children: Vec<usize>,
    pub name: String,
    pub mesh: Option<usize>,
    pub skin: Option<usize>,
}

/// The scene's nodes and its roots.
#[derive(Debug)]
pub struct Scene {
    pub nodes: Vec<SceneNode>,
    pub roots: Vec<usize>,
}

/// What the segment of a leg is.
#[derive(Clone, Copy, PartialEq, Eq, Structural, Debug)]
pub enum LegSeg {
    /// From hip to knee.
    Upper,
    /// From knee to foot.
    Lower,
    /// The marker of the foot's tip.
    Foot,
}

/// What part a node plays in the spidertron's rig.
#[derive(Clone, Copy, PartialEq, Eq, Structural, Debug)]
pub enum SpiderRole {
    /// None.
    Unposed,
    /// The torso, which follows the head's orientation.
    Body,
    /// A segment of one of the eight legs.
    Leg(u8, LegSeg),
}

/// Why a file gives no model.
#[derive(Clone, Copy, PartialEq, Eq, Structural, Debug)]
pub enum LoadError {
    NoScene,
    NoPrimitives,
    EmptyBounds,
}

/// The scene to load: the default one, or else the first.
pub fn pick_scene(default_scene: Option<usize>, scenes: usize) -> (r: Result<usize, LoadError>)
    ensures
        r == match default_scene {
            Some(s) => Ok::<usize, LoadError>(s),
            None => if scenes > 0 {
                Ok(0)
            } else {
                Err(LoadError::NoScene)
            },
        },
{
    match default_scene {
        Some(s) => Ok(s),
        None => if scenes > 0 {
            Ok(0)
        } else {
            Err(LoadError::NoScene)
        },
    }
}

/// The value of a decimal number without a sign.
pub open spec fn decimal(s: Seq<char>) -> Option<nat>
    decreases s.len(),
{
    if s.len() == 0 || !('0' <= s.last() <= '9') {
        None
    } else if s.len() == 1 {
        Some((s.last() as int - '0' as int) as nat)
    } else {
        match decimal(s.drop_last()) {
            Some(v) => Some((v * 10 + (s.last() as int - '0' as int)) as nat),
            None => None,
        }
    }
}

/// The number of a leg: a decimal number that may have a plus sign.
pub open spec fn leg_number(s: Seq<char>) -> Option<nat> {
    if s.len() > 0 && s[0] == '+' {
        decimal(s.drop_first())
    } else {
        decimal(s)
    }
}

/// The text before and behind the first underscore.
pub open spec fn split_at_underscore(s: Seq<char>) -> Option<(Seq<char>, Seq<char>)> {
    if s.contains('_') {
        let k = s.index_of_first('_')->0;
        Some((s.take(k), s.skip(k + 1)))
    } else {
        None
    }
}

pub open spec fn segment_of(s: Seq<char>) -> Option<LegSeg> {
    if s == "upper"@ {
        Some(LegSeg::Upper)
    } else if s == "lower"@ {
        Some(LegSeg::Lower)
    } else if s == "foot"@ {
        Some(LegSeg::Foot)
    } else {
        None
    }
}

/// The role that a node's name gives it: `body`, or `legN_upper`, `legN_lower`
/// and `legN_foot` for the legs from 0 to 7.
pub open spec fn spider_role_of(n: Seq<char>) -> SpiderRole {
    if n == "body"@ {
        SpiderRole::Body
    } else if has_prefix(n, "leg"@) {
        match split_at_underscore(n.skip("leg"@.len() as int)) {
            Some((idx, seg)) => match (leg_number(idx), segment_of(seg)) {
                (Some(i), Some(s)) => if i < 8 {
                    SpiderRole::Leg(i as u8, s)
                } else {
                    SpiderRole::Unposed
                },
                _ => SpiderRole::Unposed,
            },
            None => SpiderRole::Unposed,
        }
    } else {
        SpiderRole::Unposed
    }
}

proof fn lemma_decimal_grows(s: Seq<char>, k: int)
    requires
        0 < k <= s.len(),
        decimal(s) is Some,
    ensures
        decimal(s.take(k)) is Some,
        decimal(s.take(k))->0 <= decimal(s)->0,
    decreases s.len(),
{
    if k == s.len() {
        assert(s.take(k) =~= s);
    } else {
        lemma_decimal_grows(s.drop_last(), k);
        assert(s.drop_last().take(k) =~= s.take(k));
    }
}

/// The value of the digits from `from` on, where it is below 8.
fn small_decimal(c: &Vec<char>, from: usize) -> (r: Option<u8>)
    requires
        from <= c.len(),
    ensures
        r is Some <==> (decimal(c@.skip(from as int)) is Some && decimal(c@.skip(from as int))->0
            < 8),
        r matches Some(v) ==> decimal(c@.skip(from as int)) == Some(v as nat),
{
    let ghost s = c@.skip(from as int);
    if from == c.len() {
        return None;
    }
    let mut v: u8 = 0;
    let mut i: usize = from;
    while i < c.len()
        invariant
            from <= i <= c.len(),
            s == c@.skip(from as int),
            v < 8,
            i == from ==> v == 0,
            i > from ==> decimal(s.take(i - from)) == Some(v as nat),
        decreases c.len() - i,
    {
        let ghost t = s.take(i - from + 1);
        assert(t.drop_last() =~= s.take(i - from));
        assert(t.last() == c@[i as int]);
        if !('0' <= c[i] && c[i] <= '9') {
            proof {
                if decimal(s) is Some {
                    lemma_decimal_grows(s, i - from + 1);
                }
            }
            return None;
        }
        let d: u8 = ((c[i] as u32) - ('0' as u32)) as u8;
        let w: u8 = v * 10 + d;
        proof {
            assert(decimal(t) == Some(w as nat));
        }
        if w >= 8 {
            proof {
                if decimal(s) is Some {
                    lemma_decimal_grows(s, i - from + 1);
                }
            }
            return None;
        }
        v = w;
        i = i + 1;
    }
    assert(s.take(c.len() - from) =~= s);
    Some(v)
}

/// The role that a node's name, in lower case, gives it.
pub fn parse_spider_role(lname: &str) -> (r: SpiderRole)
    ensures
        r == spider_role_of(lname@),
{
    if str_eq(lname, "body") {
        return SpiderRole::Body;
    }
    match strip_prefix(lname, "leg") {
        Some(rest) => {
            assert(rest@ =~= lname@.skip("leg"@.len() as int));
            let c: Vec<char> = to_chars(rest.as_str());
            let mut k: usize = 0;
            while k < c.len() && c[k] != '_'
                invariant
                    k <= c.len(),
                    forall|j: int| 0 <= j < k ==> c@[j] != '_',
                decreases c.len() - k,
            {
                k = k + 1;
            }
            if k == c.len() {
                return SpiderRole::Unposed;
            }
            proof {
                assert(c@.contains('_')) by {
                    assert(c@[k as int] == '_');
                }
                c@.index_of_first_ensures('_');
                assert(c@.index_of_first('_')->0 == k);
            }
            let idx: &str = rest.as_str().substring_char(0, k);
            let seg: &str = rest.as_str().substring_char(k + 1, c.len());
            assert(idx@ =~= rest@.take(k as int));
            assert(seg@ =~= rest@.skip(k + 1));
            let d: Vec<char> = to_chars(idx);
            let number: Option<u8> = if d.len() > 0 && d[0] == '+' {
                assert(d@.skip(1) =~= d@.drop_first());
                small_decimal(&d, 1)
            } else {
                assert(d@.skip(0) =~= d@);
                small_decimal(&d, 0)
            };
            let part: Option<LegSeg> = if str_eq(seg, "upper") {
                Some(LegSeg::Upper)
            } else if str_eq(seg, "lower") {
                Some(LegSeg::Lower)
            } else if str_eq(seg, "foot") {
                Some(LegSeg::Foot)
            } else {
                None
            };
            match (number, part) {
                (Some(i), Some(s)) => SpiderRole::Leg(i, s),
                _ => SpiderRole::Unposed,
            }
        },
        None => SpiderRole::Unposed,
    }
}

impl Scene {
    pub open spec fn kids(&self, i: int) -> Seq<usize> {
        self.nodes@[i].children@
    }

    /// A link leads to a place of a way from the place before it.
    pub open spec fn follows(&self, path: Seq<usize>, i: int) -> bool {
        path[i - 1] < self.nodes@.len() && self.kids(path[i - 1] as int).contains(path[i])
    }

    /// A way along the links, from a root.
    pub open spec fn is_path(&self, path: Seq<usize>) -> bool {
        &&& path.len() > 0
        &&& self.roots@.contains(path[0])
        &&& forall|i: int| 1 <= i < path.len() ==> #[trigger] self.follows(path, i)
    }

    /// The links lead from a root to a node.
    #[verifier::opaque]
    pub open spec fn reached(&self, n: usize) -> bool {
        exists|path: Seq<usize>| #[trigger] self.is_path(path) && path.last() == n
    }

    /// What the roots reach forms strict trees: every link leads to a node, and no
    /// node is linked to twice, be it as a root or as a child.
    pub open spec fn strict_trees(&self) -> bool {
        &&& self.roots@.no_duplicates()
        &&& forall|i: usize| #[trigger]
            self.reached(i) ==> i < self.nodes@.len() && self.kids(i as int).no_duplicates()
        &&& forall|i: usize, j: usize, c: usize|
            self.reached(i) && self.reached(j) && i != j && #[trigger] self.kids(i as int).contains(
                c,
            ) ==> !#[trigger] self.kids(j as int).contains(c)
        &&& forall|i: usize, c: usize|
            self.reached(i) && #[trigger] self.kids(i as int).contains(c) ==> !self.roots@.contains(
                c,
            )
    }

    proof fn lemma_root_reached(&self, k: int)
        requires
            0 <= k < self.roots@.len(),
        ensures
            self.reached(self.roots@[k]),
    {
        reveal(Scene::reached);
        let path = seq![self.roots@[k]];
        assert(self.is_path(path));
        assert(path.last() == self.roots@[k]);
    }

    proof fn lemma_child_reached(&self, n: usize, c: usize)
        requires
            self.reached(n),
            n < self.nodes@.len(),
            self.kids(n as int).contains(c),
        ensures
            self.reached(c),
    {
        reveal(Scene::reached);
        let way = choose|path: Seq<usize>| #[trigger] self.is_path(path) && path.last() == n;
        let path = way.push(c);
        assert forall|i: int| 1 <= i < path.len() implies #[trigger] self.follows(path, i) by {
            if i < way.len() {
                assert(self.follows(way, i));
            }
        }
        assert(self.is_path(path));
        assert(path.last() == c);
    }

    /// A list of nodes that has the roots and the children of its nodes has all
    /// that is reached.
    proof fn lemma_reached_within(&self, s: Seq<usize>, path: Seq<usize>)
        requires
            forall|k: int| 0 <= k < self.roots@.len() ==> s.contains(#[trigger] self.roots@[k]),
            forall|n: usize, c: usize|
                s.contains(n) && #[trigger] self.kids(n as int).contains(c) ==> s.contains(c),
            self.is_path(path),
        ensures
            s.contains(path.last()),
        decreases path.len(),
    {
        if path.len() == 1 {
            let k = choose|k: int| 0 <= k < self.roots@.len() && self.roots@[k] == path[0];
            assert(s.contains(self.roots@[k]));
        } else {
            let way = path.drop_last();
            assert forall|i: int| 1 <= i < way.len() implies #[trigger] self.follows(way, i) by {
                assert(self.follows(path, i));
            }
            assert(self.is_path(way));
            self.lemma_reached_within(s, way);
            let i = path.len() - 1;
            assert(self.follows(path, i));
            assert(way.last() == path[i - 1]);
        }
    }
}

/// A node on its way to being visited, with the place of its parent in the
/// order of visits.
pub type Visit = (usize, Option<usize>);

/// The visits that follow from a stack of nodes: the top of the stack comes
/// next, and its children are put on top, the last child topmost.
pub open spec fn walk(nodes: Seq<SceneNode>, stack: Seq<Visit>, base: nat, fuel: nat) -> Seq<Visit>
    decreases fuel,
{
    if fuel == 0 || stack.len() == 0 {
        Seq::empty()
    } else {
        let v = stack.last();
        let kids = nodes[v.0 as int].children@.map_values(|c: usize| (c, Some(base as usize)));
        seq![v] + walk(nodes, stack.drop_last() + kids, base + 1, (fuel - 1) as nat)
    }
}

/// The nodes of the scene in the order in which the model holds them.
pub open spec fn visits(scene: Scene) -> Seq<Visit> {
    walk(
        scene.nodes@,
        scene.roots@.map_values(|r: usize| (r, None::<usize>)),
        0,
        scene.nodes@.len(),
    )
}

pub open spec fn visited_nodes(v: Seq<Visit>) -> Seq<usize> {
    v.map_values(|x: Visit| x.0)
}

/// Different entries of `a` and `b`, taken together, name different nodes.
pub open spec fn apart(a: Seq<Visit>, b: Seq<Visit>) -> bool {
    &&& forall|i: int, j: int| 0 <= i < j < a.len() ==> (#[trigger] a[i]).0 != (#[trigger] a[j]).0
    &&& forall|i: int, j: int| 0 <= i < j < b.len() ==> (#[trigger] b[i]).0 != (#[trigger] b[j]).0
    &&& forall|i: int, j: int|
        0 <= i < a.len() && 0 <= j < b.len() ==> (#[trigger] a[i]).0 != (#[trigger] b[j]).0
}

/// Where `v` comes from: it is a root, or a child of the node visited at the
/// place that it names.
pub open spec fn linked(scene: Scene, done: Seq<Visit>, v: Visit) -> bool {
    &&& v.0 < scene.nodes@.len()
    &&& match v.1 {
        None => scene.roots@.contains(v.0),
        Some(p) => p < done.len() && done[p as int].0 < scene.nodes@.len() && scene.kids(
            done[p as int].0 as int,
        ).contains(v.0),
    }
}

proof fn lemma_apart_len(scene: Scene, done: Seq<Visit>, stack: Seq<Visit>)
    requires
        apart(done, stack),
        forall|i: int| 0 <= i < done.len() ==> (#[trigger] done[i]).0 < scene.nodes@.len(),
        forall|i: int| 0 <= i < stack.len() ==> (#[trigger] stack[i]).0 < scene.nodes@.len(),
    ensures
        done.len() + stack.len() <= scene.nodes@.len(),
{
    let n = scene.nodes@.len() as int;
    let all = (done + stack).map_values(|v: Visit| v.0 as int);
    assert forall|i: int, j: int| 0 <= i < all.len() && 0 <= j < all.len() && i != j implies all[i]
        != all[j] by {
        if i < done.len() {
            assert((done + stack)[i] == done[i]);
        } else {
            assert((done + stack)[i] == stack[i - done.len()]);
        }
        if j < done.len() {
            assert((done + stack)[j] == done[j]);
        } else {
            assert((done + stack)[j] == stack[j - done.len()]);
        }
    }
    all.unique_seq_to_set();
    let range = vstd::set_lib::set_int_range(0, n);
    vstd::set_lib::lemma_int_range(0, n);
    assert forall|x: int| all.to_set().contains(x) implies range.contains(x) by {
        let i = choose|i: int| 0 <= i < all.len() && all[i] == x;
        if i < done.len() {
            assert((done + stack)[i] == done[i]);
        } else {
            assert((done + stack)[i] == stack[i - done.len()]);
        }
    }
    vstd::set_lib::lemma_len_subset(all.to_set(), range);
}

/// Visiting the top of the stack keeps the entries apart.
proof fn lemma_apart_step(scene: Scene, done: Seq<Visit>, stack: Seq<Visit>)
    requires
        scene.strict_trees(),
        stack.len() > 0,
        apart(done, stack),
        forall|i: int| 0 <= i < done.len() ==> linked(scene, done, #[trigger] done[i]),
        forall|i: int| 0 <= i < stack.len() ==> linked(scene, done, #[trigger] stack[i]),
        forall|i: int| 0 <= i < done.len() ==> scene.reached((#[trigger] done[i]).0),
        forall|i: int| 0 <= i < stack.len() ==> scene.reached((#[trigger] stack[i]).0),
    ensures
        ({
            let v = stack.last();
            let kids = scene.kids(v.0 as int).map_values(|c: usize| (c, Some(done.len() as usize)));
            apart(done.push(v), stack.drop_last() + kids)
        }),
{
    let v = stack.last();
    let n = v.0 as int;
    let k = scene.kids(n);
    let kids = k.map_values(|c: usize| (c, Some(done.len() as usize)));
    let a = done.push(v);
    let b = stack.drop_last() + kids;
    assert(scene.reached(stack[stack.len() - 1].0));
    // a child of `v` is neither visited nor on the stack: such a node is a root
    // or the child of a node visited before `v`
    assert forall|c: usize, w: Visit|
        k.contains(c) && (linked(scene, done, w)) && (forall|i: int|
            0 <= i < done.len() ==> (#[trigger] done[i]).0 != v.0) implies w.0 != c by {
        if w.0 == c {
            match w.1 {
                None => {
                    assert(scene.kids(n).contains(c));
                },
                Some(p) => {
                    assert(scene.reached(done[p as int].0));
                    assert(scene.kids(done[p as int].0 as int).contains(c));
                    assert(scene.kids(n).contains(c));
                },
            }
        }
    }
    assert forall|i: int| 0 <= i < done.len() implies (#[trigger] done[i]).0 != v.0 by {
        assert(stack[stack.len() - 1] == v);
    }
    assert forall|i: int, j: int| 0 <= i < j < a.len() implies (#[trigger] a[i]).0 != (#[trigger] a[j]).0 by {
        if j < done.len() {
            assert(a[i] == done[i] && a[j] == done[j]);
        } else {
            assert(a[i] == done[i] && a[j] == v);
        }
    }
    assert forall|i: int, j: int| 0 <= i < j < b.len() implies (#[trigger] b[i]).0 != (#[trigger] b[j]).0 by {
        let m = stack.len() - 1;
        if j < m {
            assert(b[i] == stack[i] && b[j] == stack[j]);
        } else {
            assert(b[j].0 == k[j - m]);
            assert(k.contains(k[j - m]));
            if i < m {
                assert(b[i] == stack[i]);
                assert(linked(scene, done, stack[i]));
            } else {
                assert(b[i].0 == k[i - m]);
            }
        }
    }
    assert forall|i: int, j: int| 0 <= i < a.len() && 0 <= j < b.len() implies (#[trigger] a[i]).0
        != (#[trigger] b[j]).0 by {
        let m = stack.len() - 1;
        if j < m {
            assert(b[j] == stack[j]);
            if i < done.len() {
                assert(a[i] == done[i]);
            } else {
                assert(a[i] == stack[m]);
            }
        } else {
            assert(b[j].0 == k[j - m]);
            assert(k.contains(k[j - m]));
            if i < done.len() {
                assert(a[i] == done[i]);
                assert(linked(scene, done, done[i]));
            } else {
                assert(a[i] == stack[m]);
                assert(linked(scene, done, stack[m]));
            }
        }
    }
}

/// The order in which the model holds the scene's nodes.
fn visit_order(scene: &Scene) -> (r: Vec<Visit>)
    requires
        scene.strict_trees(),
    ensures
        r@ == visits(*scene),
        apart(r@, Seq::empty()),
        r.len() <= scene.nodes.len(),
        forall|k: int| 0 <= k < r.len() ==> linked(*scene, r@.take(k), #[trigger] r@[k]),
        forall|k: int| 0 <= k < r.len() ==> scene.reached((#[trigger] r@[k]).0),
        forall|k: int| 0 <= k < scene.roots.len() ==> visited_nodes(r@).contains(#[trigger] scene.roots@[k]),
        forall|k: int, c: usize|
            0 <= k < r.len() && #[trigger] scene.kids(r@[k].0 as int).contains(c)
                ==> visited_nodes(r@).contains(c),
{
    let mut stack: Vec<Visit> = Vec::new();
    let mut i: usize = 0;
    let ghost start = scene.roots@.map_values(|r: usize| (r, None::<usize>));
    while i < scene.roots.len()
        invariant
            i <= scene.roots.len(),
            start == scene.roots@.map_values(|r: usize| (r, None::<usize>)),
            stack@ == start.take(i as int),
        decreases scene.roots.len() - i,
    {
        stack.push((scene.roots[i], None));
        assert(start.take(i + 1) =~= start.take(i as int).push(start[i as int]));
        i = i + 1;
    }
    assert(start.take(start.len() as int) =~= start);
    let mut done: Vec<Visit> = Vec::new();
    let ghost total = scene.nodes@.len();
    proof {
        assert(done@ + walk(scene.nodes@, stack@, 0, total) =~= visits(*scene));
        assert forall|k: int| 0 <= k < stack@.len() implies scene.reached((#[trigger] stack@[k]).0) by {
            scene.lemma_root_reached(k);
        }
        assert forall|k: int| 0 <= k < stack@.len() implies linked(*scene, done@, #[trigger] stack@[k]) by {
            assert(scene.roots@.contains(scene.roots@[k]));
            assert(scene.reached(stack@[k].0));
        }
        assert forall|k: int| 0 <= k < scene.roots@.len() implies (visited_nodes(done@).contains(
            #[trigger] scene.roots@[k],
        ) || visited_nodes(stack@).contains(scene.roots@[k])) by {
            assert(visited_nodes(stack@)[k] == scene.roots@[k]);
        }
        lemma_apart_len(*scene, done@, stack@);
    }
    while stack.len() > 0
        invariant
            scene.strict_trees(),
            total == scene.nodes@.len(),
            done.len() + stack.len() <= total,
            done@ + walk(scene.nodes@, stack@, done@.len(), (total - done@.len()) as nat) == visits(
                *scene,
            ),
            apart(done@, stack@),
            forall|k: int| 0 <= k < done.len() ==> linked(*scene, done@, #[trigger] done@[k]),
            forall|k: int|
                0 <= k < done.len() ==> linked(*scene, done@.take(k), #[trigger] done@[k]),
            forall|k: int| 0 <= k < stack.len() ==> linked(*scene, done@, #[trigger] stack@[k]),
            forall|k: int| 0 <= k < done.len() ==> scene.reached((#[trigger] done@[k]).0),
            forall|k: int| 0 <= k < stack.len() ==> scene.reached((#[trigger] stack@[k]).0),
            forall|k: int|
                0 <= k < scene.roots.len() ==> (visited_nodes(done@).contains(
                    #[trigger] scene.roots@[k],
                ) || visited_nodes(stack@).contains(scene.roots@[k])),
            forall|k: int, c: usize|
                0 <= k < done.len() && #[trigger] scene.kids(done@[k].0 as int).contains(c) ==> (
                visited_nodes(done@).contains(c) || visited_nodes(stack@).contains(c)),
        decreases total - done.len(),
    {
        let ghost done0 = done@;
        let ghost stack0 = stack@;
        proof {
            lemma_apart_step(*scene, done0, stack0);
        }
        assert(scene.reached(stack0[stack0.len() - 1].0));
        let v: Visit = stack.pop().unwrap();
        let at: usize = done.len();
        done.push(v);
        let ghost base = stack@;
        let kids: &Vec<usize> = &scene.nodes[v.0].children;
        let ghost more = kids@.map_values(|c: usize| (c, Some(at)));
        let mut k: usize = 0;
        assert(base + more.take(0) =~= base);
        while k < kids.len()
            invariant
                k <= kids.len(),
                more == kids@.map_values(|c: usize| (c, Some(at))),
                stack@ == base + more.take(k as int),
            decreases kids.len() - k,
        {
            stack.push((kids[k], Some(at)));
            assert(base + more.take(k + 1) =~= (base + more.take(k as int)).push(more[k as int]));
            k = k + 1;
        }
        assert(more.take(more.len() as int) =~= more);
        proof {
            assert(stack@ == stack0.drop_last() + more);
            assert(v == stack0.last());
            let w0 = walk(scene.nodes@, stack0, done0.len(), (total - done0.len()) as nat);
            let w1 = walk(scene.nodes@, stack@, done@.len(), (total - done@.len()) as nat);
            assert(w0 == seq![v] + w1);
            assert(done@ + w1 =~= done0 + w0);
            assert forall|k: int| 0 <= k < done@.len() implies linked(*scene, done@, #[trigger] done@[k]) by {
                if k < done0.len() {
                    assert(linked(*scene, done0, done0[k]));
                } else {
                    assert(linked(*scene, done0, stack0[stack0.len() - 1]));
                }
            }
            assert forall|k: int| 0 <= k < done@.len() implies linked(*scene, done@.take(k), #[trigger] done@[k]) by {
                if k < done0.len() {
                    assert(linked(*scene, done0.take(k), done0[k]));
                    assert(done@.take(k) =~= done0.take(k));
                } else {
                    assert(linked(*scene, done0, stack0[stack0.len() - 1]));
                    assert(done@.take(k) =~= done0);
                }
            }
            assert forall|k: int| 0 <= k < stack@.len() implies linked(*scene, done@, #[trigger] stack@[k]) by {
                let m = stack0.len() - 1;
                if k < m {
                    assert(stack@[k] == stack0[k]);
                    assert(linked(*scene, done0, stack0[k]));
                } else {
                    assert(stack@[k].0 == kids@[k - m]);
                    assert(kids@.contains(kids@[k - m]));
                    scene.lemma_child_reached(v.0, kids@[k - m]);
                }
            }
            assert forall|k: int| 0 <= k < stack@.len() implies scene.reached((#[trigger] stack@[k]).0) by {
                let m = stack0.len() - 1;
                if k < m {
                    assert(stack@[k] == stack0[k]);
                } else {
                    assert(stack@[k].0 == kids@[k - m]);
                    assert(kids@.contains(kids@[k - m]));
                    scene.lemma_child_reached(v.0, kids@[k - m]);
                }
            }
            lemma_apart_len(*scene, done@, stack@);
            assert forall|c: usize| (visited_nodes(done0).contains(c) || visited_nodes(stack0).contains(c)) implies (
            visited_nodes(done@).contains(c) || visited_nodes(stack@).contains(c)) by {
                if visited_nodes(done0).contains(c) {
                    let i = choose|i: int| 0 <= i < done0.len() && visited_nodes(done0)[i] == c;
                    assert(visited_nodes(done@)[i] == c);
                } else {
                    let i = choose|i: int| 0 <= i < stack0.len() && visited_nodes(stack0)[i] == c;
                    if i == stack0.len() - 1 {
                        assert(visited_nodes(done@)[done0.len() as int] == c);
                    } else {
                        assert(visited_nodes(stack@)[i] == c);
                    }
                }
            }
            assert forall|k: int, c: usize|
                0 <= k < done@.len() && #[trigger] scene.kids(done@[k].0 as int).contains(c) implies (
            visited_nodes(done@).contains(c) || visited_nodes(stack@).contains(c)) by {
                if k < done0.len() {
                    assert(scene.kids(done0[k].0 as int).contains(c));
                } else {
                    let i = choose|i: int| 0 <= i < kids@.len() && kids@[i] == c;
                    assert(visited_nodes(stack@)[stack0.len() - 1 + i] == c);
                }
            }
        }
    }
    proof {
        assert(done@ + walk(scene.nodes@, stack@, done@.len(), (total - done@.len()) as nat) =~= done@);
    }
    done
}

/// Where the links of a list lead has been marked, and nothing was marked twice.
fn mark_links(links: &Vec<usize>, seen: &mut Vec<bool>) -> (r: bool)
    ensures
        final(seen).len() == old(seen).len(),
        r ==> {
            &&& links@.no_duplicates()
            &&& forall|k: int| 0 <= k < links.len() ==> #[trigger] links@[k] < old(seen).len()
            &&& forall|k: int| 0 <= k < links.len() ==> !old(seen)@[#[trigger] links@[k] as int]
            &&& forall|n: int|
                0 <= n < old(seen).len() ==> (#[trigger] final(seen)@[n] <==> (old(seen)@[n]
                    || links@.contains(n as usize)))
        },
        !r ==> {
            ||| !links@.no_duplicates()
            ||| exists|k: int| 0 <= k < links.len() && #[trigger] links@[k] >= old(seen).len()
            ||| exists|k: int|
                0 <= k < links.len() && links@[k] < old(seen).len() && old(
                    seen,
                )@[#[trigger] links@[k] as int]
        },
{
    let ghost before = seen@;
    let mut k: usize = 0;
    while k < links.len()
        invariant
            k <= links.len(),
            before == old(seen)@,
            seen.len() == before.len(),
            forall|i: int, j: int| 0 <= i < j < k ==> links@[i] != links@[j],
            forall|i: int| 0 <= i < k ==> #[trigger] links@[i] < before.len(),
            forall|i: int| 0 <= i < k ==> !before[#[trigger] links@[i] as int],
            forall|i: int| 0 <= i < k ==> seen@[#[trigger] links@[i] as int],
            forall|n: int|
                0 <= n < before.len() ==> (#[trigger] seen@[n] <==> (before[n] || exists|i: int|
                    0 <= i < k && links@[i] == n)),
        decreases links.len() - k,
    {
        let c: usize = links[k];
        if c >= seen.len() {
            return false;
        }
        if seen[c] {
            proof {
                if !before[c as int] {
                    let i = choose|i: int| 0 <= i < k && links@[i] == c;
                    assert(links@[i] == links@[k as int]);
                }
            }
            return false;
        }
        let ghost mid = seen@;
        seen.set(c, true);
        proof {
            assert forall|n: int| 0 <= n < before.len() implies (#[trigger] seen@[n] <==> (before[n]
                || exists|i: int| 0 <= i < k + 1 && links@[i] == n)) by {
                if n == c {
                    assert(links@[k as int] == n);
                } else {
                    assert(seen@[n] == mid[n]);
                }
            }
            assert forall|i: int, j: int| 0 <= i < j < k + 1 implies links@[i] != links@[j] by {
                if j == k {
                    assert(mid[links@[i] as int]);
                }
            }
        }
        k = k + 1;
    }
    proof {
        assert forall|n: int| 0 <= n < before.len() implies (#[trigger] seen@[n] <==> (before[n]
            || links@.contains(n as usize))) by {
            if links@.contains(n as usize) {
                let i = choose|i: int| 0 <= i < links@.len() && links@[i] == n as usize;
                assert(links@[i] == n);
            }
        }
    }
    true
}

proof fn lemma_distinct_len(s: Seq<usize>, n: nat)
    requires
        s.no_duplicates(),
        forall|i: int| 0 <= i < s.len() ==> #[trigger] s[i] < n,
    ensures
        s.len() <= n,
{
    let t = s.map_values(|x: usize| x as int);
    assert(t.no_duplicates());
    t.unique_seq_to_set();
    let range = vstd::set_lib::set_int_range(0, n as int);
    vstd::set_lib::lemma_int_range(0, n as int);
    assert forall|x: int| t.to_set().contains(x) implies range.contains(x) by {
        let i = choose|i: int| 0 <= i < t.len() && t[i] == x;
        assert(s[i] < n);
    }
    vstd::set_lib::lemma_len_subset(t.to_set(), range);
}

/// The links of the nodes in a list lead to nodes, and to each only once.
spec fn links_apart(scene: Scene, done: Seq<usize>) -> bool {
    &&& forall|a: int| 0 <= a < done.len() ==> scene.kids(#[trigger] done[a] as int).no_duplicates()
    &&& forall|a: int, b: int, c: usize|
        0 <= a < done.len() && 0 <= b < done.len() && a != b && #[trigger] scene.kids(
            done[a] as int,
        ).contains(c) ==> !#[trigger] scene.kids(done[b] as int).contains(c)
    &&& forall|a: int, c: usize|
        0 <= a < done.len() && #[trigger] scene.kids(done[a] as int).contains(c)
            ==> !scene.roots@.contains(c)
}

/// Some node in a list links to a node.
spec fn linked_from(scene: Scene, done: Seq<usize>, c: usize) -> bool {
    exists|a: int| 0 <= a < done.len() && #[trigger] scene.kids(done[a] as int).contains(c)
}

/// Whether what the roots reach forms strict trees.
#[verifier::rlimit(30)]
pub fn is_strict(scene: &Scene) -> (r: bool)
    ensures
        r == scene.strict_trees(),
{
    let n: usize = scene.nodes.len();
    let mut seen: Vec<bool> = Vec::new();
    let mut i: usize = 0;
    while i < n
        invariant
            i <= n,
            seen.len() == i,
            forall|k: int| 0 <= k < i ==> !seen@[k],
        decreases n - i,
    {
        seen.push(false);
        i = i + 1;
    }
    if !mark_links(&scene.roots, &mut seen) {
        proof {
            if scene.strict_trees() {
                let k = choose|k: int| 0 <= k < scene.roots@.len() && #[trigger] scene.roots@[k] >= n;
                scene.lemma_root_reached(k);
            }
        }
        return false;
    }
    let mut stack: Vec<usize> = Vec::new();
    let mut i: usize = 0;
    while i < scene.roots.len()
        invariant
            i <= scene.roots.len(),
            stack@ == scene.roots@.take(i as int),
        decreases scene.roots.len() - i,
    {
        stack.push(scene.roots[i]);
        assert(scene.roots@.take(i + 1) =~= scene.roots@.take(i as int).push(scene.roots@[i as int]));
        i = i + 1;
    }
    assert(scene.roots@.take(i as int) =~= scene.roots@);
    let ghost mut done: Seq<usize> = Seq::empty();
    proof {
        assert(done + stack@ =~= scene.roots@);
        assert forall|k: int| 0 <= k < (done + stack@).len() implies scene.reached(
            #[trigger] (done + stack@)[k],
        ) by {
            scene.lemma_root_reached(k);
        }
    }
    while stack.len() > 0
        invariant
            n == scene.nodes.len(),
            seen.len() == n,
            scene.roots@.no_duplicates(),
            (done + stack@).no_duplicates(),
            forall|k: int|
                0 <= k < (done + stack@).len() ==> #[trigger] (done + stack@)[k] < n && seen@[(done
                    + stack@)[k] as int] && scene.reached((done + stack@)[k]),
            forall|m: int|
                0 <= m < n ==> (#[trigger] seen@[m] <==> (scene.roots@.contains(m as usize)
                    || linked_from(*scene, done, m as usize))),
            forall|m: int|
                0 <= m < n && #[trigger] seen@[m] ==> (done + stack@).contains(m as usize),
            forall|k: int| 0 <= k < scene.roots@.len() ==> #[trigger] scene.roots@[k] < n,
            forall|a: int, c: usize|
                0 <= a < done.len() && #[trigger] scene.kids(done[a] as int).contains(c) ==> c < n,
            links_apart(*scene, done),
        decreases n - done.len(),
    {
        let ghost stack0 = stack@;
        let ghost all0 = done + stack0;
        let ghost before = seen@;
        proof {
            lemma_distinct_len(all0, n as nat);
            assert(all0[all0.len() - 1] == stack0.last());
        }
        let v: usize = stack.pop().unwrap();
        let kids: &Vec<usize> = &scene.nodes[v].children;
        assert(kids@ == scene.kids(v as int));
        assert(scene.reached(v));
        assert forall|a: int| 0 <= a < done.len() implies #[trigger] done[a] != v && scene.reached(done[a]) by {
            assert(all0[a] == done[a]);
        }
        if !mark_links(kids, &mut seen) {
            proof {
                if scene.strict_trees() {
                    assert(kids@.no_duplicates());
                    if exists|k: int| 0 <= k < kids@.len() && #[trigger] kids@[k] >= n {
                        let k = choose|k: int| 0 <= k < kids@.len() && #[trigger] kids@[k] >= n;
                        assert(kids@.contains(kids@[k]));
                        scene.lemma_child_reached(v, kids@[k]);
                    } else {
                        let k = choose|k: int|
                            0 <= k < kids@.len() && kids@[k] < n && before[#[trigger] kids@[k] as int];
                        let c = kids@[k];
                        assert(scene.kids(v as int).contains(c));
                        assert(before[c as int]);
                        if !scene.roots@.contains(c) {
                            let a = choose|a: int|
                                0 <= a < done.len() && #[trigger] scene.kids(done[a] as int).contains(c);
                            assert(scene.kids(done[a] as int).contains(c));
                        }
                    }
                }
            }
            return false;
        }
        let ghost done0 = done;
        proof {
            done = done.push(v);
        }
        let ghost base = stack@;
        let mut k: usize = 0;
        assert(base + kids@.take(0) =~= base);
        while k < kids.len()
            invariant
                k <= kids.len(),
                stack@ == base + kids@.take(k as int),
            decreases kids.len() - k,
        {
            stack.push(kids[k]);
            assert(base + kids@.take(k + 1) =~= (base + kids@.take(k as int)).push(kids@[k as int]));
            k = k + 1;
        }
        assert(kids@.take(k as int) =~= kids@);
        proof {
            let all = done + stack@;
            let d = done0.len() as int;
            let from = |x: int|
                if x < d {
                    x
                } else if x == d {
                    all0.len() - 1
                } else {
                    x - 1
                };
            assert forall|x: int| 0 <= x < all0.len() implies #[trigger] all[x] == all0[from(x)] by {}
            assert forall|x: int| 0 <= x < all.len() implies #[trigger] all[x] < n && seen@[all[x] as int]
                && scene.reached(all[x]) by {
                if x < all0.len() {
                    assert(all[x] == all0[from(x)]);
                    assert(before[all0[from(x)] as int]);
                } else {
                    let c = kids@[x - all0.len()];
                    assert(all[x] == c);
                    assert(kids@.contains(c));
                    scene.lemma_child_reached(v, c);
                }
            }
            assert forall|x: int, y: int| 0 <= x < y < all.len() implies all[x] != all[y] by {
                if y < all0.len() {
                    assert(all[x] == all0[from(x)] && all[y] == all0[from(y)]);
                    assert(from(x) != from(y));
                } else {
                    let c = kids@[y - all0.len()];
                    assert(!before[c as int]);
                    assert(all[y] == c);
                    if x < all0.len() {
                        assert(all[x] == all0[from(x)]);
                        assert(before[all0[from(x)] as int]);
                    } else {
                        assert(all[x] == kids@[x - all0.len()]);
                    }
                }
            }
            assert(all.no_duplicates());
            assert(done[done0.len() as int] == v);
            assert forall|m: int| 0 <= m < n implies (#[trigger] seen@[m] <==> (scene.roots@.contains(m as usize)
                || linked_from(*scene, done, m as usize))) by {
                let c = m as usize;
                if linked_from(*scene, done0, c) {
                    let a = choose|a: int|
                        0 <= a < done0.len() && #[trigger] scene.kids(done0[a] as int).contains(c);
                    assert(done[a] == done0[a]);
                    assert(scene.kids(done[a] as int).contains(c));
                }
                if kids@.contains(c) {
                    assert(scene.kids(done[done0.len() as int] as int).contains(c));
                }
                if linked_from(*scene, done, c) {
                    let a = choose|a: int|
                        0 <= a < done.len() && #[trigger] scene.kids(done[a] as int).contains(c);
                    if a < done0.len() {
                        assert(scene.kids(done0[a] as int).contains(c));
                    }
                }
            }
            assert forall|m: int| 0 <= m < n && #[trigger] seen@[m] implies all.contains(m as usize) by {
                let c = m as usize;
                if before[m] {
                    let x = choose|x: int| 0 <= x < all0.len() && all0[x] == c;
                    if x < d {
                        assert(all[x] == c);
                    } else if x == all0.len() - 1 {
                        assert(all[d] == c);
                    } else {
                        assert(all[x + 1] == c);
                    }
                } else {
                    let x = choose|x: int| 0 <= x < kids@.len() && kids@[x] == c;
                    assert(all[all0.len() + x] == c);
                }
            }
            assert forall|a: int, c: usize|
                0 <= a < done.len() && #[trigger] scene.kids(done[a] as int).contains(c) implies c < n by {
                if a < done0.len() {
                    assert(scene.kids(done0[a] as int).contains(c));
                }
            }
            assert forall|a: int, c: usize|
                0 <= a < done.len() && #[trigger] scene.kids(done[a] as int).contains(c) implies !scene.roots@.contains(c) by {
                if a < done0.len() {
                    assert(scene.kids(done0[a] as int).contains(c));
                } else {
                    let x = choose|x: int| 0 <= x < kids@.len() && kids@[x] == c;
                    assert(!before[kids@[x] as int]);
                }
            }
            assert forall|a: int, b: int, c: usize|
                0 <= a < done.len() && 0 <= b < done.len() && a != b && #[trigger] scene.kids(
                    done[a] as int,
                ).contains(c) implies !#[trigger] scene.kids(done[b] as int).contains(c) by {
                if scene.kids(done[b] as int).contains(c) {
                    if a < done0.len() && b < done0.len() {
                        assert(scene.kids(done0[a] as int).contains(c));
                        assert(scene.kids(done0[b] as int).contains(c));
                    } else {
                        let o = if a < done0.len() {
                            a
                        } else {
                            b
                        };
                        assert(scene.kids(done0[o] as int).contains(c));
                        assert(kids@.contains(c));
                        let x = choose|x: int| 0 <= x < kids@.len() && kids@[x] == c;
                        assert(!before[kids@[x] as int]);
                        assert(before[c as int] <==> (scene.roots@.contains(c) || linked_from(*scene, done0, c)));
                    }
                }
            }
            assert forall|a: int| 0 <= a < done.len() implies scene.kids(#[trigger] done[a] as int).no_duplicates() by {
                if a < done0.len() {
                    assert(done[a] == done0[a]);
                }
            }
            lemma_distinct_len(all, n as nat);
        }
    }
    proof {
        assert(done + stack@ =~= done);
        assert forall|x: int| 0 <= x < done.len() implies #[trigger] done[x] < n by {
            assert((done + stack@)[x] == done[x]);
        }
        assert forall|x: int| 0 <= x < scene.roots@.len() implies done.contains(#[trigger] scene.roots@[x]) by {
            assert(scene.roots@.contains(scene.roots@[x]));
            assert(seen@[scene.roots@[x] as int]);
        }
        assert forall|m: usize, c: usize|
            done.contains(m) && #[trigger] scene.kids(m as int).contains(c) implies done.contains(c) by {
            let a = choose|a: int| 0 <= a < done.len() && done[a] == m;
            assert(scene.kids(done[a] as int).contains(c));
            assert(linked_from(*scene, done, c));
            assert(seen@[c as int]);
        }
        assert forall|m: usize| #[trigger] scene.reached(m) implies done.contains(m) by {
            reveal(Scene::reached);
            let path = choose|path: Seq<usize>| #[trigger] scene.is_path(path) && path.last() == m;
            scene.lemma_reached_within(done, path);
        }
        assert forall|m: usize| #[trigger] scene.reached(m) implies m < scene.nodes@.len()
            && scene.kids(m as int).no_duplicates() by {
            let a = choose|a: int| 0 <= a < done.len() && done[a] == m;
            assert(done[a] < n);
        }
        assert forall|i: usize, j: usize, c: usize|
            scene.reached(i) && scene.reached(j) && i != j && #[trigger] scene.kids(i as int).contains(c) implies !#[trigger] scene.kids(
            j as int,
        ).contains(c) by {
            let a = choose|a: int| 0 <= a < done.len() && done[a] == i;
            let b = choose|b: int| 0 <= b < done.len() && done[b] == j;
            assert(scene.kids(done[a] as int).contains(c));
            assert(scene.kids(done[b] as int).contains(c) ==> false);
        }
        assert forall|i: usize, c: usize|
            scene.reached(i) && #[trigger] scene.kids(i as int).contains(c) implies !scene.roots@.contains(c) by {
            let a = choose|a: int| 0 <= a < done.len() && done[a] == i;
            assert(scene.kids(done[a] as int).contains(c));
        }
    }
    true
}

/// A node of the model. The tracks are channels of the clip that plays.
#[derive(Clone, Copy, PartialEq, Eq, Structural, Debug)]
pub struct NodeData {
    /// The scene's node; none for the node that holds merged geometry.
    pub source: Option<usize>,
    pub parent: Option<usize>,
    pub t_anim: Option<usize>,
    pub r_anim: Option<usize>,
    pub s_anim: Option<usize>,
    /// Turns with the gun.
    pub is_turret: bool,
    /// Scrolls while driving.
    pub is_track: bool,
    /// Spins on its axle.
    pub is_wheel: bool,
    pub spider: SpiderRole,
}

/// A mesh that hangs off a node of the model.
#[derive(Clone, Copy, PartialEq, Eq, Structural, Debug)]
pub struct NodeMesh {
    pub node: usize,
    pub mesh: usize,
    pub skin: Option<usize>,
}

/// The scene's nodes as the model holds them.
#[derive(Debug)]
pub struct Flat {
    pub nodes: Vec<NodeData>,
    /// Where each of the scene's nodes went.
    pub to_local: Vec<Option<usize>>,
    pub meshes: Vec<NodeMesh>,
}

/// What a node's name says of it.
#[derive(Clone, Copy, PartialEq, Eq, Structural, Debug)]
pub struct NodeRoles {
    pub is_turret: bool,
    pub is_track: bool,
    pub is_wheel: bool,
    pub spider: SpiderRole,
    /// Its mesh is a scorch mark.
    pub scorched: bool,
}

/// What a node's name, in lower case, says of it.
pub open spec fn roles_of(lower: Seq<char>) -> NodeRoles {
    NodeRoles {
        is_turret: has_text(lower, "turrethull"@),
        is_track: has_text(lower, "track"@),
        is_wheel: lower == "wheels"@ || has_prefix(lower, "wheels."@),
        spider: spider_role_of(lower),
        scorched: has_text(lower, "scorch"@),
    }
}

/// What a node's name, in lower case, says of it.
pub fn roles_in(lower: &str) -> (r: NodeRoles)
    ensures
        r == roles_of(lower@),
{
    NodeRoles {
        is_turret: contains(lower, "turrethull"),
        is_track: contains(lower, "track"),
        is_wheel: str_eq(lower, "wheels") || starts_with(lower, "wheels."),
        spider: parse_spider_role(lower),
        scorched: contains(lower, "scorch"),
    }
}

/// What the name of a node of the scene says of it, whatever the case of its
/// letters.
pub open spec fn node_roles(scene: Scene, n: int) -> NodeRoles {
    roles_of(lowercase(scene.nodes@[n].name@))
}

/// The model's node for a visited node, before any track is bound to it.
pub open spec fn node_of(scene: Scene, v: Visit) -> NodeData {
    let roles = node_roles(scene, v.0 as int);
    NodeData {
        source: Some(v.0),
        parent: v.1,
        t_anim: None,
        r_anim: None,
        s_anim: None,
        is_turret: roles.is_turret,
        is_track: roles.is_track,
        is_wheel: roles.is_wheel,
        spider: roles.spider,
    }
}

/// The meshes of the visited nodes. Scorch marks are left out: their
/// transparency is lost in the textures.
pub open spec fn meshes_of(scene: Scene, v: Seq<Visit>) -> Seq<NodeMesh>
    decreases v.len(),
{
    if v.len() == 0 {
        Seq::empty()
    } else {
        let before = meshes_of(scene, v.drop_last());
        let n = scene.nodes@[v.last().0 as int];
        match n.mesh {
            Some(m) => if node_roles(scene, v.last().0 as int).scorched {
                before
            } else {
                before.push(NodeMesh { node: (v.len() - 1) as usize, mesh: m, skin: n.skin })
            },
            None => before,
        }
    }
}

/// `to_local` says of every node of the scene where it was visited.
pub open spec fn places(v: Seq<Visit>, to_local: Seq<Option<usize>>) -> bool {
    &&& forall|n: int|
        0 <= n < to_local.len() && (#[trigger] to_local[n]) is Some ==> to_local[n]->0 < v.len()
            && v[to_local[n]->0 as int].0 == n
    &&& forall|k: int|
        0 <= k < v.len() && (#[trigger] v[k]).0 < to_local.len() ==> to_local[v[k].0 as int] == Some(
            k as usize,
        )
}

/// Lays the scene's nodes out in a list in which parents precede their children.
#[verifier::rlimit(40)]
pub fn flatten(scene: &Scene) -> (r: Flat)
    requires
        scene.strict_trees(),
    ensures
        r.nodes@ == visits(*scene).map_values(|v: Visit| node_of(*scene, v)),
        r.meshes@ == meshes_of(*scene, visits(*scene)),
        r.to_local.len() == scene.nodes.len(),
        places(visits(*scene), r.to_local@),
        forall|k: int|
            0 <= k < r.nodes.len() ==> match (#[trigger] r.nodes@[k]).parent {
                Some(p) => p < k && scene.kids(r.nodes@[p as int].source->0 as int).contains(
                    r.nodes@[k].source->0,
                ),
                None => scene.roots@.contains(r.nodes@[k].source->0),
            },
        forall|k: int| 0 <= k < scene.roots.len() ==> r.to_local@[#[trigger] scene.roots@[k] as int] is Some,
        forall|n: int, c: usize|
            0 <= n < scene.nodes.len() && r.to_local@[n] is Some && #[trigger] scene.kids(n).contains(c)
                ==> r.to_local@[c as int] is Some,
{
    let order: Vec<Visit> = visit_order(scene);
    let ghost v = order@;
    let mut to_local: Vec<Option<usize>> = Vec::new();
    let mut i: usize = 0;
    while i < scene.nodes.len()
        invariant
            i <= scene.nodes.len(),
            to_local.len() == i,
            forall|k: int| 0 <= k < i ==> to_local@[k] is None,
        decreases scene.nodes.len() - i,
    {
        to_local.push(None);
        i = i + 1;
    }
    let mut nodes: Vec<NodeData> = Vec::new();
    let mut meshes: Vec<NodeMesh> = Vec::new();
    let ghost all = v.map_values(|w: Visit| node_of(*scene, w));
    let mut k: usize = 0;
    while k < order.len()
        invariant
            k <= order.len(),
            order@ == v,
            all == v.map_values(|w: Visit| node_of(*scene, w)),
            apart(v, Seq::empty()),
            to_local.len() == scene.nodes.len(),
            forall|j: int| 0 <= j < v.len() ==> linked(*scene, v.take(j), #[trigger] v[j]),
            nodes@ == all.take(k as int),
            meshes@ == meshes_of(*scene, v.take(k as int)),
            places(v.take(k as int), to_local@),
        decreases order.len() - k,
    {
        let w: Visit = order[k];
        assert(linked(*scene, v.take(k as int), v[k as int]));
        let ghost before = to_local@;
        to_local.set(w.0, Some(k));
        let n: &SceneNode = &scene.nodes[w.0];
        let lower: String = to_lowercase(n.name.as_str());
        let roles: NodeRoles = roles_in(lower.as_str());
        nodes.push(
            NodeData {
                source: Some(w.0),
                parent: w.1,
                t_anim: None,
                r_anim: None,
                s_anim: None,
                is_turret: roles.is_turret,
                is_track: roles.is_track,
                is_wheel: roles.is_wheel,
                spider: roles.spider,
            },
        );
        match n.mesh {
            Some(m) => {
                if !roles.scorched {
                    meshes.push(NodeMesh { node: k, mesh: m, skin: n.skin });
                }
            },
            None => {},
        }
        proof {
            let t0 = v.take(k as int);
            let t1 = v.take(k + 1);
            assert(t1.drop_last() =~= t0);
            assert(all.take(k + 1) =~= all.take(k as int).push(all[k as int]));
            assert forall|m: int| 0 <= m < to_local@.len() && (#[trigger] to_local@[m]) is Some implies to_local@[m]->0
                < t1.len() && t1[to_local@[m]->0 as int].0 == m by {
                if m != w.0 {
                    assert(to_local@[m] == before[m]);
                    assert(t0[before[m]->0 as int] == t1[before[m]->0 as int]);
                }
            }
            assert forall|x: int| 0 <= x < t1.len() && (#[trigger] t1[x]).0 < to_local@.len() implies to_local@[t1[x].0 as int]
                == Some(x as usize) by {
                if x < k {
                    assert(t0[x] == t1[x]);
                    assert(v[x].0 != v[k as int].0);
                    assert(before[t0[x].0 as int] == Some(x as usize));
                }
            }
        }
        k = k + 1;
    }
    proof {
        assert(v.take(v.len() as int) =~= v);
        assert(all.take(v.len() as int) =~= all);
        assert forall|k: int| 0 <= k < nodes@.len() implies match (#[trigger] nodes@[k]).parent {
            Some(p) => p < k && scene.kids(nodes@[p as int].source->0 as int).contains(
                nodes@[k].source->0,
            ),
            None => scene.roots@.contains(nodes@[k].source->0),
        } by {
            assert(linked(*scene, v.take(k), v[k]));
            match v[k].1 {
                Some(p) => {
                    assert(v.take(k)[p as int] == v[p as int]);
                },
                None => {},
            }
        }
        assert forall|c: usize| visited_nodes(v).contains(c) && c < scene.nodes@.len() implies to_local@[c as int] is Some by {
            let x = choose|x: int| 0 <= x < v.len() && visited_nodes(v)[x] == c;
            assert(v[x].0 == c);
        }
        assert forall|n: int, c: usize|
            0 <= n < scene.nodes@.len() && to_local@[n] is Some && #[trigger] scene.kids(n).contains(c) implies to_local@[c as int] is Some by {
            let x = to_local@[n]->0 as int;
            assert(scene.kids(v[x].0 as int).contains(c));
            assert(scene.reached(v[x].0));
            scene.lemma_child_reached(v[x].0, c);
        }
    }
    Flat { nodes, to_local, meshes }
}

/// How a material is drawn.
#[derive(Clone, Copy, PartialEq, Eq, Structural, Debug)]
pub struct MaterialFlags {
    /// It takes the colour of the player.
    pub tintable: bool,
    /// The red channel of its roughness image is ambient occlusion.
    pub mr_has_ao: bool,
}

/// How a material is drawn, by its name in lower case and its images: all but
/// joints take the player's colour, and occlusion counts where it shares the image
/// of the roughness.
pub open spec fn flags_of(lower: Seq<char>, roughness: Option<usize>, occlusion: Option<usize>) -> MaterialFlags {
    MaterialFlags {
        tintable: !has_text(lower, "joint"@),
        mr_has_ao: roughness is Some && occlusion == roughness,
    }
}

/// How a material is drawn, by its name in lower case.
pub fn flags_in(lower: &str, roughness: Option<usize>, occlusion: Option<usize>) -> (r: MaterialFlags)
    ensures
        r == flags_of(lower@, roughness, occlusion),
{
    let mr_has_ao: bool = match (roughness, occlusion) {
        (Some(a), Some(b)) => a == b,
        _ => false,
    };
    MaterialFlags { tintable: !contains(lower, "joint"), mr_has_ao }
}

/// How a material is drawn. One without a name has an empty one.
pub fn material_flags(name: &str, roughness: Option<usize>, occlusion: Option<usize>) -> (r: MaterialFlags)
    ensures
        r == flags_of(lowercase(name@), roughness, occlusion),
{
    flags_in(to_lowercase(name).as_str(), roughness, occlusion)
}

/// What a channel of an animation drives: the number of values it has, or all
/// the values of a shape key track.
#[derive(Debug)]
pub enum TrackOutput {
    Translations(usize),
    Rotations(usize),
    Scales(usize),
    Weights(Vec<u32>),
    Other,
}

/// A channel of an animation. `times` counts its key times; `end` is the last
/// of them, where there is one, as the bits of a float that is not negative.
#[derive(Debug)]
pub struct Channel {
    pub node: usize,
    pub times: usize,
    pub end: u32,
    pub output: TrackOutput,
}

/// One animation of the file.
#[derive(Debug)]
pub struct Clip {
    pub channels: Vec<Channel>,
}

/// The last key time of the channels.
pub open spec fn last_time(c: Seq<Channel>) -> u32
    decreases c.len(),
{
    if c.len() == 0 {
        0
    } else {
        let before = last_time(c.drop_last());
        if c.last().times > 0 && c.last().end > before {
            c.last().end
        } else {
            before
        }
    }
}

/// The duration of an animation.
pub fn anim_duration(clip: &Clip) -> (r: u32)
    ensures
        r == last_time(clip.channels@),
{
    let mut d: u32 = 0;
    let mut i: usize = 0;
    while i < clip.channels.len()
        invariant
            i <= clip.channels.len(),
            d == last_time(clip.channels@.take(i as int)),
        decreases clip.channels.len() - i,
    {
        let c: &Channel = &clip.channels[i];
        if c.times > 0 && c.end > d {
            d = c.end;
        }
        assert(clip.channels@.take(i + 1).drop_last() =~= clip.channels@.take(i as int));
        i = i + 1;
    }
    assert(clip.channels@.take(i as int) =~= clip.channels@);
    d
}

/// Clip `a` is better than clip `b`: it has more channels, or as many and lasts
/// longer.
pub open spec fn better(a: Clip, b: Clip) -> bool {
    ||| a.channels@.len() > b.channels@.len()
    ||| a.channels@.len() == b.channels@.len() && last_time(a.channels@) > last_time(b.channels@)
}

/// The clip that plays: the best one, and of those the first. Clips without
/// channels do not play.
pub fn best_clip(clips: &Vec<Clip>) -> (r: Option<usize>)
    ensures
        r is None <==> forall|i: int| 0 <= i < clips.len() ==> (#[trigger] clips@[i]).channels@.len() == 0,
        r matches Some(b) ==> {
            &&& b < clips.len()
            &&& clips@[b as int].channels@.len() > 0
            &&& forall|i: int| 0 <= i < clips.len() ==> !better(#[trigger] clips@[i], clips@[b as int])
            &&& forall|i: int| 0 <= i < b ==> better(clips@[b as int], #[trigger] clips@[i])
        },
{
    let mut best: Option<usize> = None;
    let mut best_n: usize = 0;
    let mut best_d: u32 = 0;
    let mut i: usize = 0;
    while i < clips.len()
        invariant
            i <= clips.len(),
            best is None ==> best_n == 0 && best_d == 0 && forall|k: int|
                0 <= k < i ==> (#[trigger] clips@[k]).channels@.len() == 0,
            best matches Some(b) ==> {
                &&& b < i
                &&& best_n == clips@[b as int].channels@.len()
                &&& best_n > 0
                &&& best_d == last_time(clips@[b as int].channels@)
                &&& forall|k: int| 0 <= k < i ==> !better(#[trigger] clips@[k], clips@[b as int])
                &&& forall|k: int| 0 <= k < b ==> better(clips@[b as int], #[trigger] clips@[k])
            },
        decreases clips.len() - i,
    {
        let n: usize = clips[i].channels.len();
        let d: u32 = anim_duration(&clips[i]);
        if n > best_n || (n == best_n && d > best_d) {
            proof {
                if best is None {
                    assert(n > 0);
                }
            }
            best = Some(i);
            best_n = n;
            best_d = d;
        }
        i = i + 1;
    }
    best
}

/// The three tracks that a node can have.
#[derive(Clone, Copy, PartialEq, Eq, Structural, Debug)]
pub enum TrackKind {
    Translation,
    Rotation,
    Scale,
}

/// Channel `c` moves the node that went to `node`, with one value for each of
/// its times.
pub open spec fn drives(c: Channel, to_local: Seq<Option<usize>>, node: int, kind: TrackKind) -> bool {
    &&& c.times > 0
    &&& to_local[c.node as int] is Some
    &&& to_local[c.node as int]->0 == node
    &&& match (c.output, kind) {
        (TrackOutput::Translations(n), TrackKind::Translation) => n == c.times,
        (TrackOutput::Rotations(n), TrackKind::Rotation) => n == c.times,
        (TrackOutput::Scales(n), TrackKind::Scale) => n == c.times,
        _ => false,
    }
}

/// The last channel that drives a track of a node.
pub open spec fn track_of(c: Seq<Channel>, to_local: Seq<Option<usize>>, node: int, kind: TrackKind) -> Option<usize>
    decreases c.len(),
{
    if c.len() == 0 {
        None
    } else if drives(c.last(), to_local, node, kind) {
        Some((c.len() - 1) as usize)
    } else {
        track_of(c.drop_last(), to_local, node, kind)
    }
}

/// A node with the tracks that the channels give it.
pub open spec fn with_tracks(n: NodeData, c: Seq<Channel>, to_local: Seq<Option<usize>>, node: int) -> NodeData {
    NodeData {
        t_anim: track_of(c, to_local, node, TrackKind::Translation),
        r_anim: track_of(c, to_local, node, TrackKind::Rotation),
        s_anim: track_of(c, to_local, node, TrackKind::Scale),
        ..n
    }
}

/// A shape key track: the channel, and the first shape key's value at each time.
#[derive(Debug)]
pub struct WeightTrack {
    pub channel: usize,
    pub values: Vec<u32>,
}

/// The values of a shape key channel per key time.
pub open spec fn weights_per_key(c: Channel) -> int {
    match c.output {
        TrackOutput::Weights(w) => w@.len() as int / (c.times as int),
        _ => 0,
    }
}

/// Channel `c` drives the shape keys of a node of the model.
pub open spec fn drives_weights(c: Channel, to_local: Seq<Option<usize>>) -> bool {
    &&& c.times > 0
    &&& to_local[c.node as int] is Some
    &&& c.output is Weights
    &&& weights_per_key(c) >= 1
    &&& c.output->Weights_0@.len() == weights_per_key(c) * c.times
}

/// The first channel that drives shape keys.
pub open spec fn weight_channel(c: Seq<Channel>, to_local: Seq<Option<usize>>) -> Option<usize>
    decreases c.len(),
{
    if c.len() == 0 {
        None
    } else if weight_channel(c.drop_last(), to_local) is Some {
        weight_channel(c.drop_last(), to_local)
    } else if drives_weights(c.last(), to_local) {
        Some((c.len() - 1) as usize)
    } else {
        None
    }
}

/// What a channel makes of its first shape key.
pub open spec fn first_weights(c: Channel) -> Seq<u32> {
    Seq::new(c.times as nat, |i: int| c.output->Weights_0@[i * weights_per_key(c)])
}

fn extract_weights(c: &Channel) -> (r: Option<Vec<u32>>)
    requires
        c.times > 0,
        c.output is Weights,
    ensures
        r is Some <==> weights_per_key(*c) >= 1 && c.output->Weights_0@.len() == weights_per_key(
            *c,
        ) * c.times,
        r matches Some(v) ==> v@ == first_weights(*c),
{
    match &c.output {
        TrackOutput::Weights(all) => {
            let per_key: usize = all.len() / c.times;
            let ghost len = all@.len() as int;
            let ghost times = c.times as int;
            assert(per_key * times <= len) by (nonlinear_arith)
                requires
                    per_key == len / times,
                    times > 0,
                    len >= 0,
            ;
            if per_key < 1 || all.len() != per_key * c.times {
                return None;
            }
            let total: usize = all.len();
            let mut v: Vec<u32> = Vec::new();
            let mut i: usize = 0;
            while i < c.times
                invariant
                    i <= c.times,
                    total == all@.len(),
                    c.output == TrackOutput::Weights(*all),
                    per_key == weights_per_key(*c),
                    per_key >= 1,
                    all@.len() == per_key * c.times,
                    v@ == first_weights(*c).take(i as int),
                decreases c.times - i,
            {
                assert(i * per_key < all@.len() && i * per_key >= 0) by (nonlinear_arith)
                    requires
                        0 <= i < c.times,
                        per_key >= 1,
                        all@.len() == per_key * c.times,
                ;
                v.push(all[i * per_key]);
                assert(first_weights(*c).take(i + 1) =~= first_weights(*c).take(i as int).push(
                    first_weights(*c)[i as int],
                ));
                i = i + 1;
            }
            assert(first_weights(*c).take(c.times as int) =~= first_weights(*c));
            Some(v)
        },
        _ => None,
    }
}

/// Binds the channels of the clip that plays to the nodes they move, and finds
/// its shape key track and its duration.
pub fn bind_tracks(nodes: &mut Vec<NodeData>, to_local: &Vec<Option<usize>>, clip: &Clip) -> (r: (
    Option<WeightTrack>,
    u32,
))
    requires
        forall|k: int| 0 <= k < clip.channels.len() ==> (#[trigger] clip.channels@[k]).node < to_local.len(),
        forall|n: int| 0 <= n < to_local.len() ==> (#[trigger] to_local@[n] matches Some(k) ==> k < old(nodes).len()),
        forall|n: int| 0 <= n < old(nodes).len() ==> (#[trigger] old(nodes)@[n]).t_anim is None
            && old(nodes)@[n].r_anim is None && old(nodes)@[n].s_anim is None,
    ensures
        final(nodes).len() == old(nodes).len(),
        forall|n: int|
            0 <= n < old(nodes).len() ==> #[trigger] final(nodes)@[n] == with_tracks(
                old(nodes)@[n],
                clip.channels@,
                to_local@,
                n,
            ),
        r.0 is Some <==> weight_channel(clip.channels@, to_local@) is Some,
        r.0 matches Some(w) ==> {
            &&& weight_channel(clip.channels@, to_local@) == Some(w.channel)
            &&& w.channel < clip.channels.len()
            &&& w.values@ == first_weights(clip.channels@[w.channel as int])
        },
        r.1 == last_time(clip.channels@),
{
    let ghost start = nodes@;
    let ghost ch = clip.channels@;
    let mut weights: Option<WeightTrack> = None;
    let mut duration: u32 = 0;
    let mut i: usize = 0;
    while i < clip.channels.len()
        invariant
            i <= clip.channels.len(),
            ch == clip.channels@,
            nodes@.len() == start.len(),
            forall|k: int| 0 <= k < ch.len() ==> (#[trigger] ch[k]).node < to_local.len(),
            forall|n: int| 0 <= n < to_local.len() ==> (#[trigger] to_local@[n] matches Some(k) ==> k < start.len()),
            forall|n: int|
                0 <= n < start.len() ==> #[trigger] nodes@[n] == with_tracks(
                    start[n],
                    ch.take(i as int),
                    to_local@,
                    n,
                ),
            weights is Some <==> weight_channel(ch.take(i as int), to_local@) is Some,
            weights matches Some(w) ==> {
                &&& weight_channel(ch.take(i as int), to_local@) == Some(w.channel)
                &&& w.channel < i
                &&& w.values@ == first_weights(ch[w.channel as int])
            },
            duration == last_time(ch.take(i as int)),
        decreases clip.channels.len() - i,
    {
        let c: &Channel = &clip.channels[i];
        let ghost t = ch.take(i + 1);
        assert(t.drop_last() =~= ch.take(i as int));
        assert(t.last() == *c);
        let ghost before = nodes@;
        if c.times > 0 {
            if c.end > duration {
                duration = c.end;
            }
            match to_local[c.node] {
                Some(at) => {
                    let mut n: NodeData = nodes[at];
                    match &c.output {
                        TrackOutput::Translations(count) => {
                            if *count == c.times {
                                n.t_anim = Some(i);
                            }
                        },
                        TrackOutput::Rotations(count) => {
                            if *count == c.times {
                                n.r_anim = Some(i);
                            }
                        },
                        TrackOutput::Scales(count) => {
                            if *count == c.times {
                                n.s_anim = Some(i);
                            }
                        },
                        TrackOutput::Weights(_) => {
                            if weights.is_none() {
                                match extract_weights(c) {
                                    Some(values) => {
                                        weights = Some(WeightTrack { channel: i, values });
                                    },
                                    None => {},
                                }
                            }
                        },
                        TrackOutput::Other => {},
                    }
                    nodes.set(at, n);
                },
                None => {},
            }
        }
        proof {
            assert forall|n: int| 0 <= n < start.len() implies #[trigger] nodes@[n] == with_tracks(
                start[n],
                t,
                to_local@,
                n,
            ) by {
                assert(before[n] == with_tracks(start[n], ch.take(i as int), to_local@, n));
            }
        }
        i = i + 1;
    }
    assert(ch.take(i as int) =~= ch);
    (weights, duration)
}

/// A skin as the file holds it: its joints, and the number of its inverse bind
/// matrices where it has any.
#[derive(Debug)]
pub struct SceneSkin {
    pub joints: Vec<usize>,
    pub binds: Option<usize>,
}

/// A skin of the model: the file's skin and its joints as nodes of the model.
#[derive(Debug)]
pub struct SkinData {
    pub source: usize,
    pub joints: Vec<usize>,
}

/// A skin is usable when all its joints are nodes of the model and it has one
/// inverse bind matrix for each of them, or none at all.
pub open spec fn usable_skin(s: SceneSkin, to_local: Seq<Option<usize>>) -> bool {
    &&& forall|k: int| 0 <= k < s.joints@.len() ==> to_local[#[trigger] s.joints@[k] as int] is Some
    &&& s.binds is Some ==> s.binds->0 == s.joints@.len()
}

/// The usable skins, by their number in the file.
pub open spec fn usable_skins(skins: Seq<SceneSkin>, to_local: Seq<Option<usize>>) -> Seq<usize>
    decreases skins.len(),
{
    if skins.len() == 0 {
        Seq::empty()
    } else {
        let before = usable_skins(skins.drop_last(), to_local);
        if usable_skin(skins.last(), to_local) {
            before.push((skins.len() - 1) as usize)
        } else {
            before
        }
    }
}

fn local_joints(skin: &SceneSkin, to_local: &Vec<Option<usize>>) -> (r: Option<Vec<usize>>)
    requires
        forall|k: int| 0 <= k < skin.joints.len() ==> #[trigger] skin.joints@[k] < to_local.len(),
    ensures
        r is Some <==> forall|k: int|
            0 <= k < skin.joints.len() ==> to_local@[#[trigger] skin.joints@[k] as int] is Some,
        r matches Some(j) ==> j.len() == skin.joints.len() && forall|k: int|
            0 <= k < skin.joints.len() ==> to_local@[skin.joints@[k] as int] == Some(#[trigger] j@[k]),
{
    let mut j: Vec<usize> = Vec::new();
    let mut k: usize = 0;
    while k < skin.joints.len()
        invariant
            k <= skin.joints.len(),
            j.len() == k,
            forall|i: int| 0 <= i < skin.joints.len() ==> #[trigger] skin.joints@[i] < to_local.len(),
            forall|i: int| 0 <= i < k ==> to_local@[skin.joints@[i] as int] == Some(#[trigger] j@[i]),
        decreases skin.joints.len() - k,
    {
        match to_local[skin.joints[k]] {
            Some(n) => {
                j.push(n);
            },
            None => {
                assert(to_local@[skin.joints@[k as int] as int] is None);
                return None;
            },
        }
        k = k + 1;
    }
    proof {
        assert forall|i: int| 0 <= i < skin.joints.len() implies to_local@[#[trigger] skin.joints@[i] as int] is Some by {
            assert(to_local@[skin.joints@[i] as int] == Some(j@[i]));
        }
    }
    Some(j)
}

/// Turns the file's skins into the model's; unusable ones are left out. The
/// second list says where each of the file's skins went.
pub fn bind_skins(skins: &Vec<SceneSkin>, to_local: &Vec<Option<usize>>) -> (r: (
    Vec<SkinData>,
    Vec<Option<usize>>,
))
    requires
        forall|s: int, k: int|
            0 <= s < skins.len() && 0 <= k < skins@[s].joints.len() ==> #[trigger] skins@[s].joints@[k]
                < to_local.len(),
    ensures
        r.0@.map_values(|s: SkinData| s.source) == usable_skins(skins@, to_local@),
        forall|i: int| #![trigger r.0@[i]]
            0 <= i < r.0.len() ==> {
                let s = r.0@[i];
                &&& s.source < skins.len()
                &&& usable_skin(skins@[s.source as int], to_local@)
                &&& s.joints.len() == skins@[s.source as int].joints.len()
                &&& forall|k: int|
                    0 <= k < s.joints.len() ==> to_local@[skins@[s.source as int].joints@[k] as int]
                        == Some(#[trigger] s.joints@[k])
            },
        r.1.len() == skins.len(),
        forall|s: int|
            0 <= s < skins.len() ==> (#[trigger] r.1@[s] is Some <==> usable_skin(
                skins@[s],
                to_local@,
            )),
        forall|s: int|
            0 <= s < skins.len() && r.1@[s] is Some ==> #[trigger] r.1@[s]->0 < r.0.len()
                && r.0@[r.1@[s]->0 as int].source == s,
{
    let mut out: Vec<SkinData> = Vec::new();
    let mut moved: Vec<Option<usize>> = Vec::new();
    let mut i: usize = 0;
    assert(out@.map_values(|s: SkinData| s.source) =~= usable_skins(skins@.take(0), to_local@));
    while i < skins.len()
        invariant
            i <= skins.len(),
            forall|s: int, k: int|
                0 <= s < skins.len() && 0 <= k < skins@[s].joints.len()
                    ==> #[trigger] skins@[s].joints@[k] < to_local.len(),
            out@.map_values(|s: SkinData| s.source) == usable_skins(skins@.take(i as int), to_local@),
            forall|a: int| #![trigger out@[a]]
                0 <= a < out.len() ==> {
                    let s = out@[a];
                    &&& s.source < i
                    &&& usable_skin(skins@[s.source as int], to_local@)
                    &&& s.joints.len() == skins@[s.source as int].joints.len()
                    &&& forall|k: int|
                        0 <= k < s.joints.len() ==> to_local@[skins@[s.source as int].joints@[k] as int]
                            == Some(#[trigger] s.joints@[k])
                },
            moved.len() == i,
            forall|s: int|
                0 <= s < i ==> (#[trigger] moved@[s] is Some <==> usable_skin(
                    skins@[s],
                    to_local@,
                )),
            forall|s: int|
                0 <= s < i && moved@[s] is Some ==> #[trigger] moved@[s]->0 < out.len()
                    && out@[moved@[s]->0 as int].source == s,
        decreases skins.len() - i,
    {
        let skin: &SceneSkin = &skins[i];
        let ghost t = skins@.take(i + 1);
        assert(t.drop_last() =~= skins@.take(i as int));
        assert(t.last() == *skin);
        let fits: bool = match skin.binds {
            Some(n) => n == skin.joints.len(),
            None => true,
        };
        let ghost before = out@;
        match local_joints(skin, to_local) {
            Some(joints) => {
                if fits {
                    moved.push(Some(out.len()));
                    out.push(SkinData { source: i, joints });
                    assert(out@.map_values(|s: SkinData| s.source) =~= before.map_values(
                        |s: SkinData| s.source,
                    ).push(i));
                    assert(usable_skin(*skin, to_local@));
                } else {
                    moved.push(None);
                }
            },
            None => {
                moved.push(None);
                assert(!usable_skin(*skin, to_local@));
            },
        }
        i = i + 1;
    }
    assert(skins@.take(i as int) =~= skins@);
    (out, moved)
}

/// Nothing about the node itself makes it move.
pub open spec fn still(n: NodeData) -> bool {
    &&& n.t_anim is None
    &&& n.r_anim is None
    &&& n.s_anim is None
    &&& !n.is_turret
    &&& !n.is_track
    &&& !n.is_wheel
    &&& n.spider is Unposed
}

/// Neither the node nor any of its ancestors moves.
pub open spec fn never_moves(nodes: Seq<NodeData>, i: int) -> bool
    decreases i,
{
    still(nodes[i]) && match nodes[i].parent {
        Some(p) => p < i && never_moves(nodes, p as int),
        None => true,
    }
}

/// Which nodes never move, so that their transforms can be baked into geometry.
pub fn static_nodes(nodes: &Vec<NodeData>) -> (r: Vec<bool>)
    requires
        forall|i: int| 0 <= i < nodes.len() ==> ((#[trigger] nodes@[i]).parent matches Some(p) ==> p < i),
    ensures
        r.len() == nodes.len(),
        forall|i: int| 0 <= i < r.len() ==> #[trigger] r@[i] == never_moves(nodes@, i),
{
    let mut r: Vec<bool> = Vec::new();
    let mut i: usize = 0;
    while i < nodes.len()
        invariant
            i <= nodes.len(),
            r.len() == i,
            forall|k: int| 0 <= k < nodes.len() ==> ((#[trigger] nodes@[k]).parent matches Some(p) ==> p < k),
            forall|k: int| 0 <= k < i ==> #[trigger] r@[k] == never_moves(nodes@, k),
        decreases nodes.len() - i,
    {
        let n: &NodeData = &nodes[i];
        let rests: bool = match n.spider {
            SpiderRole::Unposed => true,
            _ => false,
        };
        let quiet: bool = n.t_anim.is_none() && n.r_anim.is_none() && n.s_anim.is_none()
            && !n.is_turret && !n.is_track && !n.is_wheel && rests;
        let held: bool = match n.parent {
            Some(p) => r[p],
            None => true,
        };
        r.push(quiet && held);
        i = i + 1;
    }
    r
}

/// A node that never moves has no moving ancestor: each parent on the way to
/// the root never moves either.
pub proof fn lemma_static_ancestors(nodes: Seq<NodeData>, i: int)
    requires
        never_moves(nodes, i),
    ensures
        still(nodes[i]),
        nodes[i].parent matches Some(p) ==> p < i && never_moves(nodes, p as int),
{
}

/// The nodes of one leg.
#[derive(Clone, Copy, PartialEq, Eq, Structural, Debug)]
pub struct LegNodes {
    pub upper: usize,
    pub lower: usize,
    pub foot: usize,
    /// The parent of the upper segment, or that segment itself.
    pub root: usize,
}

/// The last node with a role.
pub open spec fn last_with_role(nodes: Seq<NodeData>, role: SpiderRole) -> Option<usize>
    decreases nodes.len(),
{
    if nodes.len() == 0 {
        None
    } else if nodes.last().spider == role {
        Some((nodes.len() - 1) as usize)
    } else {
        last_with_role(nodes.drop_last(), role)
    }
}

/// The nodes of leg `l`, where all three segments are there.
pub open spec fn leg_of(nodes: Seq<NodeData>, l: u8) -> Option<LegNodes> {
    match (
        last_with_role(nodes, SpiderRole::Leg(l, LegSeg::Upper)),
        last_with_role(nodes, SpiderRole::Leg(l, LegSeg::Lower)),
        last_with_role(nodes, SpiderRole::Leg(l, LegSeg::Foot)),
    ) {
        (Some(upper), Some(lower), Some(foot)) => Some(
            LegNodes {
                upper,
                lower,
                foot,
                root: match nodes[upper as int].parent {
                    Some(p) => p,
                    None => upper,
                },
            },
        ),
        _ => None,
    }
}

/// The complete legs from 0 up to `l`.
pub open spec fn legs_below(nodes: Seq<NodeData>, l: int) -> Seq<LegNodes>
    decreases l,
{
    if l <= 0 {
        Seq::empty()
    } else {
        match leg_of(nodes, (l - 1) as u8) {
            Some(leg) => legs_below(nodes, l - 1).push(leg),
            None => legs_below(nodes, l - 1),
        }
    }
}

fn find_role(nodes: &Vec<NodeData>, role: SpiderRole) -> (r: Option<usize>)
    ensures
        r == last_with_role(nodes@, role),
        r matches Some(i) ==> i < nodes.len() && nodes@[i as int].spider == role,
{
    let mut k: usize = nodes.len();
    assert(nodes@.take(k as int) =~= nodes@);
    while k > 0
        invariant
            k <= nodes.len(),
            last_with_role(nodes@, role) == last_with_role(nodes@.take(k as int), role),
        decreases k,
    {
        assert(nodes@.take(k as int).drop_last() =~= nodes@.take(k - 1));
        if nodes[k - 1].spider == role {
            return Some(k - 1);
        }
        k = k - 1;
    }
    None
}

/// The nodes of the spidertron's torso and of its complete legs. A model none
/// of whose nodes is an upper leg, or that has no complete leg, has no rig.
pub fn rig_nodes(nodes: &Vec<NodeData>) -> (r: Option<(Option<usize>, Vec<LegNodes>)>)
    ensures
        r is Some <==> legs_below(nodes@, 8).len() > 0,
        r matches Some(rig) ==> rig.0 == last_with_role(nodes@, SpiderRole::Body) && rig.1@
            == legs_below(nodes@, 8),
{
    let mut legs: Vec<LegNodes> = Vec::new();
    let mut l: u8 = 0;
    while l < 8
        invariant
            l <= 8,
            legs@ == legs_below(nodes@, l as int),
        decreases 8 - l,
    {
        let upper: Option<usize> = find_role(nodes, SpiderRole::Leg(l, LegSeg::Upper));
        let lower: Option<usize> = find_role(nodes, SpiderRole::Leg(l, LegSeg::Lower));
        let foot: Option<usize> = find_role(nodes, SpiderRole::Leg(l, LegSeg::Foot));
        match (upper, lower, foot) {
            (Some(u), Some(lo), Some(f)) => {
                let root: usize = match nodes[u].parent {
                    Some(p) => p,
                    None => u,
                };
                legs.push(LegNodes { upper: u, lower: lo, foot: f, root });
            },
            _ => {},
        }
        l = l + 1;
    }
    if legs.len() == 0 {
        return None;
    }
    Some((find_role(nodes, SpiderRole::Body), legs))
}

/// The legs that are marked.
pub open spec fn marked_legs(legs: Seq<LegNodes>, marks: Seq<bool>) -> Seq<LegNodes>
    decreases legs.len(),
{
    if legs.len() == 0 {
        Seq::empty()
    } else {
        let before = marked_legs(legs.drop_last(), marks);
        if marks[legs.len() - 1] {
            before.push(legs.last())
        } else {
            before
        }
    }
}

/// Drops the legs whose segments are too short to bend; a rig without legs is
/// none.
pub fn keep_legs(legs: &Vec<LegNodes>, long_enough: &Vec<bool>) -> (r: Option<Vec<LegNodes>>)
    requires
        legs.len() == long_enough.len(),
    ensures
        r is Some <==> marked_legs(legs@, long_enough@).len() > 0,
        r matches Some(v) ==> v@ == marked_legs(legs@, long_enough@),
{
    let mut v: Vec<LegNodes> = Vec::new();
    let mut i: usize = 0;
    while i < legs.len()
        invariant
            i <= legs.len(),
            legs.len() == long_enough.len(),
            v@ == marked_legs(legs@.take(i as int), long_enough@),
        decreases legs.len() - i,
    {
        assert(legs@.take(i + 1).drop_last() =~= legs@.take(i as int));
        if long_enough[i] {
            v.push(legs[i]);
        }
        i = i + 1;
    }
    assert(legs@.take(i as int) =~= legs@);
    if v.len() == 0 {
        None
    } else {
        Some(v)
    }
}

/// Everything about a model that is settled before its vertices are read.
#[derive(Debug)]
pub struct ModelPlan {
    pub nodes: Vec<NodeData>,
    /// Which nodes never move.
    pub fixed: Vec<bool>,
    /// The meshes to read, with their skins as skins of the model.
    pub meshes: Vec<NodeMesh>,
    pub skins: Vec<SkinData>,
    /// The clip that plays.
    pub clip: Option<usize>,
    pub weights: Option<WeightTrack>,
    /// The end of that clip.
    pub duration: u32,
}

/// The skin of the model that a mesh of the scene uses.
pub open spec fn local_skin(skin: Option<usize>, moved: Seq<Option<usize>>) -> Option<usize> {
    match skin {
        Some(s) => if s < moved.len() {
            moved[s as int]
        } else {
            None
        },
        None => None,
    }
}

fn relink_skins(meshes: &Vec<NodeMesh>, moved: &Vec<Option<usize>>) -> (r: Vec<NodeMesh>)
    ensures
        r@ == meshes@.map_values(
            |m: NodeMesh| NodeMesh { skin: local_skin(m.skin, moved@), ..m },
        ),
{
    let mut r: Vec<NodeMesh> = Vec::new();
    let ghost want = meshes@.map_values(
        |m: NodeMesh| NodeMesh { skin: local_skin(m.skin, moved@), ..m },
    );
    let mut i: usize = 0;
    while i < meshes.len()
        invariant
            i <= meshes.len(),
            want == meshes@.map_values(
                |m: NodeMesh| NodeMesh { skin: local_skin(m.skin, moved@), ..m },
            ),
            r@ == want.take(i as int),
        decreases meshes.len() - i,
    {
        let m: NodeMesh = meshes[i];
        let skin: Option<usize> = match m.skin {
            Some(s) => if s < moved.len() {
                moved[s]
            } else {
                None
            },
            None => None,
        };
        r.push(NodeMesh { node: m.node, mesh: m.mesh, skin });
        assert(want.take(i + 1) =~= want.take(i as int).push(want[i as int]));
        i = i + 1;
    }
    assert(want.take(i as int) =~= want);
    r
}

/// The links of clips and skins lead to nodes of the scene.
pub open spec fn refs_in_range(scene: Scene, clips: Seq<Clip>, skins: Seq<SceneSkin>) -> bool {
    &&& forall|c: int, k: int|
        0 <= c < clips.len() && 0 <= k < clips[c].channels@.len()
            ==> (#[trigger] clips[c].channels@[k]).node < scene.nodes@.len()
    &&& forall|s: int, k: int|
        0 <= s < skins.len() && 0 <= k < skins[s].joints@.len() ==> #[trigger] skins[s].joints@[k]
            < scene.nodes@.len()
}

/// The channels of the clip that plays.
pub open spec fn played(clips: Seq<Clip>, clip: Option<usize>) -> Seq<Channel> {
    match clip {
        Some(c) => clips[c as int].channels@,
        None => Seq::empty(),
    }
}

/// A skin of a model has as many joints as its bind matrices, where the file gives
/// any, and each of them is a node of the model.
pub open spec fn skin_fits(s: SkinData, skins: Seq<SceneSkin>, nodes: int) -> bool {
    &&& s.source < skins.len()
    &&& s.joints.len() == skins[s.source as int].joints.len()
    &&& skins[s.source as int].binds matches Some(n) ==> n == s.joints.len()
    &&& forall|k: int| 0 <= k < s.joints.len() ==> #[trigger] s.joints@[k] < nodes
}

/// Settles the nodes, the clip, the skins and the meshes of a model.
pub fn load(scene: &Scene, clips: &Vec<Clip>, skins: &Vec<SceneSkin>) -> (r: ModelPlan)
    requires
        scene.strict_trees(),
        refs_in_range(*scene, clips@, skins@),
    ensures
        r.clip is None <==> forall|i: int| 0 <= i < clips.len() ==> (#[trigger] clips@[i]).channels@.len() == 0,
        r.clip matches Some(b) ==> {
            &&& b < clips.len()
            &&& forall|i: int| 0 <= i < clips.len() ==> !better(#[trigger] clips@[i], clips@[b as int])
            &&& forall|i: int| 0 <= i < b ==> better(clips@[b as int], #[trigger] clips@[i])
        },
        exists|to_local: Seq<Option<usize>>, moved: Seq<Option<usize>>| #![trigger places(visits(*scene), to_local), moved.len()] {
            let v = visits(*scene);
            let ch = played(clips@, r.clip);
            &&& to_local.len() == scene.nodes@.len()
            &&& places(v, to_local)
            &&& r.nodes@ == Seq::new(
                v.len(),
                |i: int| with_tracks(node_of(*scene, v[i]), ch, to_local, i),
            )
            &&& r.weights is Some <==> weight_channel(ch, to_local) is Some
            &&& r.weights matches Some(w) ==> weight_channel(ch, to_local) == Some(w.channel)
                && w.values@ == first_weights(ch[w.channel as int])
            &&& r.skins@.map_values(|s: SkinData| s.source) == usable_skins(skins@, to_local)
            &&& moved.len() == skins@.len()
            &&& forall|s: int|
                0 <= s < moved.len() ==> (#[trigger] moved[s] is Some <==> usable_skin(
                    skins@[s],
                    to_local,
                ))
            &&& forall|s: int|
                0 <= s < moved.len() && moved[s] is Some ==> #[trigger] moved[s]->0 < r.skins.len()
                    && r.skins@[moved[s]->0 as int].source == s
            &&& forall|i: int|
                0 <= i < r.skins.len() ==> (#[trigger] r.skins@[i]).joints.len()
                    == skins@[r.skins@[i].source as int].joints.len()
            &&& forall|i: int, k: int|
                0 <= i < r.skins.len() && 0 <= k < r.skins@[i].joints.len()
                    ==> to_local[skins@[r.skins@[i].source as int].joints@[k] as int] == Some(
                    #[trigger] r.skins@[i].joints@[k],
                )
            &&& r.meshes@ == meshes_of(*scene, v).map_values(
                |m: NodeMesh| NodeMesh { skin: local_skin(m.skin, moved), ..m },
            )
        },
        forall|i: int|
            0 <= i < r.skins.len() ==> skin_fits(
                #[trigger] r.skins@[i],
                skins@,
                r.nodes@.len() as int,
            ),
        r.duration == last_time(played(clips@, r.clip)),
        forall|k: int|
            0 <= k < r.nodes.len() ==> ((#[trigger] r.nodes@[k]).parent matches Some(p) ==> p < k),
        r.fixed.len() == r.nodes.len(),
        forall|k: int| 0 <= k < r.fixed.len() ==> #[trigger] r.fixed@[k] == never_moves(r.nodes@, k),
{
    let flat: Flat = flatten(scene);
    let ghost v = visits(*scene);
    let ghost plain = flat.nodes@;
    let ghost to_local = flat.to_local@;
    let mut nodes: Vec<NodeData> = flat.nodes;
    let clip: Option<usize> = best_clip(clips);
    let ghost ch = played(clips@, clip);
    let mut weights: Option<WeightTrack> = None;
    let mut duration: u32 = 0;
    match clip {
        Some(c) => {
            let bound: (Option<WeightTrack>, u32) = bind_tracks(&mut nodes, &flat.to_local, &clips[c]);
            weights = bound.0;
            duration = bound.1;
        },
        None => {},
    }
    proof {
        let want = Seq::new(v.len(), |i: int| with_tracks(node_of(*scene, v[i]), ch, to_local, i));
        assert forall|i: int| 0 <= i < v.len() implies #[trigger] nodes@[i] == want[i] by {
            assert(plain[i] == node_of(*scene, v[i]));
            assert(nodes@[i] == with_tracks(plain[i], ch, to_local, i));
        }
        assert(nodes@ =~= want);
        assert forall|k: int| 0 <= k < nodes@.len() implies ((#[trigger] nodes@[k]).parent matches Some(p) ==> p < k) by {
            assert(nodes@[k].parent == plain[k].parent);
        }
    }
    let (local_skins, moved) = bind_skins(skins, &flat.to_local);
    let meshes: Vec<NodeMesh> = relink_skins(&flat.meshes, &moved);
    let fixed: Vec<bool> = static_nodes(&nodes);
    proof {
        assert(places(v, to_local));
        assert(moved@.len() == skins@.len());
        assert forall|i: int| 0 <= i < local_skins@.len() implies skin_fits(
            #[trigger] local_skins@[i],
            skins@,
            nodes@.len() as int,
        ) by {
            let s = local_skins@[i];
            assert forall|k: int| 0 <= k < s.joints.len() implies #[trigger] s.joints@[k] < nodes@.len() by {
                let n = skins@[s.source as int].joints@[k] as int;
                assert(to_local[n] == Some(s.joints@[k]));
            }
        }
    }
    ModelPlan { nodes, fixed, meshes, skins: local_skins, clip, weights, duration }
}

/// A model that is ready to be drawn.
#[derive(Debug)]
pub struct ModelData {
    pub nodes: Vec<NodeData>,
    pub prims: Vec<PrimData>,
    /// Some node is posed while the model is drawn.
    pub has_pose_nodes: bool,
    /// Some node is a track, whose chain may follow a path of its own.
    pub has_track: bool,
}

/// The node that holds merged geometry.
pub open spec fn ident_node() -> NodeData {
    NodeData {
        source: None,
        parent: None,
        t_anim: None,
        r_anim: None,
        s_anim: None,
        is_turret: false,
        is_track: false,
        is_wheel: false,
        spider: SpiderRole::Unposed,
    }
}

pub open spec fn posed(n: NodeData) -> bool {
    n.is_turret || n.is_track || n.is_wheel
}

fn any_posed(nodes: &Vec<NodeData>) -> (r: (bool, bool))
    ensures
        r.0 <==> exists|i: int| 0 <= i < nodes.len() && posed(#[trigger] nodes@[i]),
        r.1 <==> exists|i: int| 0 <= i < nodes.len() && (#[trigger] nodes@[i]).is_track,
{
    let mut pose: bool = false;
    let mut track: bool = false;
    let mut i: usize = 0;
    while i < nodes.len()
        invariant
            i <= nodes.len(),
            pose <==> exists|k: int| 0 <= k < i && posed(#[trigger] nodes@[k]),
            track <==> exists|k: int| 0 <= k < i && (#[trigger] nodes@[k]).is_track,
        decreases nodes.len() - i,
    {
        let n: NodeData = nodes[i];
        assert(nodes@[i as int] == n);
        if n.is_turret || n.is_track || n.is_wheel {
            pose = true;
        }
        if n.is_track {
            track = true;
        }
        i = i + 1;
    }
    (pose, track)
}

proof fn lemma_merged_empty(prims: Seq<PrimSpec>, fixed: Seq<bool>)
    ensures
        unmerged(prims, fixed).len() + merged_materials(prims, fixed).len() > 0 <==> prims.len() > 0,
    decreases prims.len(),
{
    if prims.len() > 0 {
        if crate::geometry::mergeable(prims.last(), fixed) {
            lemma_materials_cover(prims, fixed, prims.len() - 1);
        }
    }
}

/// Puts a model together from its plan and the primitives that were read for it,
/// with what was found besides: whether any vertex gave it bounds, and whether
/// it has a spidertron's rig.
pub fn assemble(plan: ModelPlan, prims: Vec<PrimData>, bounded: bool, rigged: bool) -> (r: Result<
    ModelData,
    LoadError,
>)
    requires
        plan.fixed.len() == plan.nodes.len(),
        prims_fit(prim_views(prims@), plan.fixed@),
    ensures
        r is Ok <==> prims@.len() > 0 && bounded,
        prims@.len() == 0 ==> r == Err::<ModelData, LoadError>(LoadError::NoPrimitives),
        prims@.len() > 0 && !bounded ==> r == Err::<ModelData, LoadError>(LoadError::EmptyBounds),
        r matches Ok(m) ==> {
            &&& prim_views(m.prims@) == merged(
                prim_views(prims@),
                plan.fixed@,
                plan.nodes.len(),
            )
            &&& m.nodes@ == if merged_materials(prim_views(prims@), plan.fixed@).len() > 0 {
                plan.nodes@.push(ident_node())
            } else {
                plan.nodes@
            }
            &&& m.has_pose_nodes <==> (rigged || exists|i: int|
                0 <= i < plan.nodes.len() && posed(#[trigger] plan.nodes@[i]))
            &&& m.has_track <==> exists|i: int|
                0 <= i < plan.nodes.len() && (#[trigger] plan.nodes@[i]).is_track
        },
{
    let ghost all = prim_views(prims@);
    let ghost f = plan.fixed@;
    let (pose, track) = any_posed(&plan.nodes);
    let mut nodes: Vec<NodeData> = plan.nodes;
    let ident: usize = nodes.len();
    let out: Vec<PrimData> = merge_prims(prims, &plan.fixed, ident);
    proof {
        lemma_merged_empty(all, f);
        assert(prim_views(out@).len() == out@.len());
    }
    if out.len() == 0 {
        return Err(LoadError::NoPrimitives);
    }
    if !bounded {
        return Err(LoadError::EmptyBounds);
    }
    // the merged groups stand last, and only they are on the new node
    let last: usize = out.len() - 1;
    let grouped: bool = out[last].node == ident;
    proof {
        let u = unmerged(all, f);
        let mats = merged_materials(all, f);
        assert(prim_views(out@)[last as int] == out@[last as int]@);
        if mats.len() > 0 {
            assert(prim_views(out@)[last as int].node == ident);
        } else {
            lemma_unmerged_nodes(all, f);
            assert(prim_views(out@)[last as int] == u[last as int]);
        }
    }
    if grouped {
        nodes.push(
            NodeData {
                source: None,
                parent: None,
                t_anim: None,
                r_anim: None,
                s_anim: None,
                is_turret: false,
                is_track: false,
                is_wheel: false,
                spider: SpiderRole::Unposed,
            },
        );
    }
    Ok(ModelData { nodes, prims: out, has_pose_nodes: pose || rigged, has_track: track })
}

proof fn lemma_unmerged_nodes(prims: Seq<PrimSpec>, fixed: Seq<bool>)
    requires
        forall|i: int| 0 <= i < prims.len() ==> (#[trigger] prims[i]).node < fixed.len(),
    ensures
        forall|i: int|
            0 <= i < unmerged(prims, fixed).len() ==> (#[trigger] unmerged(prims, fixed)[i]).node
                < fixed.len(),
    decreases prims.len(),
{
    if prims.len() > 0 {
        lemma_unmerged_nodes(prims.drop_last(), fixed);
    }
}

/// What a node's name says of it: a turret turns with the gun, tracks scroll, wheels
/// spin, and scorch marks are not drawn.
pub proof fn lemma_roles_by_name(lower: &str, r: NodeRoles)
    requires
        call_ensures(roles_in, (lower,), r),
    ensures
        r.is_turret <==> has_text(lower@, "turrethull"@),
        r.is_track <==> has_text(lower@, "track"@),
        r.is_wheel <==> lower@ == "wheels"@ || has_prefix(lower@, "wheels."@),
        r.scorched <==> has_text(lower@, "scorch"@),
        r.spider == spider_role_of(lower@),
{
}

/// Each node of the scene that is reached has one node of the model, with what its name
/// says of it, and no track yet.
pub proof fn lemma_nodes_keep_their_roles(scene: &Scene, r: Flat, n: int)
    requires
        scene.strict_trees(),
        call_ensures(flatten, (scene,), r),
        0 <= n < scene.nodes@.len(),
        r.to_local@[n] is Some,
    ensures
        ({
            let d = r.nodes@[r.to_local@[n]->0 as int];
            let name = lowercase(scene.nodes@[n].name@);
            &&& r.to_local@[n]->0 < r.nodes@.len()
            &&& d.source == Some(n as usize)
            &&& d.is_turret <==> has_text(name, "turrethull"@)
            &&& d.is_track <==> has_text(name, "track"@)
            &&& d.is_wheel <==> name == "wheels"@ || has_prefix(name, "wheels."@)
            &&& d.spider == spider_role_of(name)
            &&& d.t_anim is None && d.r_anim is None && d.s_anim is None
        }),
{
    let v = visits(*scene);
    let k = r.to_local@[n]->0 as int;
    assert(v[k].0 == n);
    assert(r.nodes@[k] == node_of(*scene, v[k]));
}

proof fn lemma_mesh_of_visit(scene: Scene, v: Seq<Visit>, k: int)
    requires
        0 <= k < v.len() <= usize::MAX,
    ensures
        ({
            let n = scene.nodes@[v[k].0 as int];
            let scorched = has_text(lowercase(n.name@), "scorch"@);
            &&& n.mesh is Some && !scorched ==> meshes_of(scene, v).contains(
                NodeMesh { node: k as usize, mesh: n.mesh->0, skin: n.skin },
            )
            &&& n.mesh is None || scorched ==> forall|m: NodeMesh| #[trigger]
                meshes_of(scene, v).contains(m) ==> m.node != k
        }),
    decreases v.len(),
{
    let d = v.drop_last();
    let b = meshes_of(scene, d);
    let w = meshes_of(scene, v);
    if k < d.len() {
        lemma_mesh_of_visit(scene, d, k);
        assert(d[k] == v[k]);
    } else {
        lemma_meshes_below(scene, d);
    }
    assert forall|m: NodeMesh| #[trigger] w.contains(m) implies b.contains(m) || m.node == v.len() - 1 by {
        let i = choose|i: int| 0 <= i < w.len() && w[i] == m;
        if i < b.len() {
            assert(b[i] == m);
        }
    }
    assert forall|m: NodeMesh| #[trigger] b.contains(m) implies w.contains(m) by {
        let i = choose|i: int| 0 <= i < b.len() && b[i] == m;
        assert(w[i] == m);
    }
    if k == d.len() {
        let n = scene.nodes@[v[k].0 as int];
        if n.mesh is Some && !has_text(lowercase(n.name@), "scorch"@) {
            assert(w[b.len() as int] == (NodeMesh { node: k as usize, mesh: n.mesh->0, skin: n.skin }));
        } else {
            assert(w == b);
        }
    }
}

proof fn lemma_meshes_below(scene: Scene, v: Seq<Visit>)
    requires
        v.len() <= usize::MAX,
    ensures
        forall|m: NodeMesh| #[trigger] meshes_of(scene, v).contains(m) ==> m.node < v.len(),
    decreases v.len(),
{
    if v.len() > 0 {
        lemma_meshes_below(scene, v.drop_last());
        let b = meshes_of(scene, v.drop_last());
        let w = meshes_of(scene, v);
        assert forall|m: NodeMesh| #[trigger] w.contains(m) implies m.node < v.len() by {
            let i = choose|i: int| 0 <= i < w.len() && w[i] == m;
            if i < b.len() {
                assert(b[i] == m);
                assert(b.contains(m));
            }
        }
    }
}

/// Every mesh that hangs off a node is read, with its skin, unless the node is a scorch
/// mark.
pub proof fn lemma_meshes_are_read(scene: &Scene, r: Flat, n: int)
    requires
        scene.strict_trees(),
        call_ensures(flatten, (scene,), r),
        0 <= n < scene.nodes@.len(),
        r.to_local@[n] is Some,
    ensures
        ({
            let k = r.to_local@[n]->0;
            let node = scene.nodes@[n];
            let scorched = has_text(lowercase(node.name@), "scorch"@);
            &&& node.mesh is Some && !scorched ==> r.meshes@.contains(
                NodeMesh { node: k, mesh: node.mesh->0, skin: node.skin },
            )
            &&& node.mesh is None || scorched ==> forall|m: NodeMesh| #[trigger] r.meshes@.contains(m) ==> m.node != k
        }),
{
    let v = visits(*scene);
    let k = r.to_local@[n]->0 as int;
    assert(v[k].0 == n);
    assert(v.len() == r.nodes@.len());
    assert(r.nodes.len() == r.nodes@.len());
    lemma_mesh_of_visit(*scene, v, k);
}

/// The duration of a clip is the last key time of any channel that has one.
pub proof fn lemma_duration(clip: &Clip, r: u32, k: int)
    requires
        call_ensures(anim_duration, (clip,), r),
    ensures
        0 <= k < clip.channels@.len() && clip.channels@[k].times > 0 ==> clip.channels@[k].end <= r,
        r > 0 ==> exists|i: int|
            0 <= i < clip.channels@.len() && (#[trigger] clip.channels@[i]).times > 0 && clip.channels@[i].end == r,
{
    lemma_last_time(clip.channels@, clip.channels@.len() as int);
    assert(clip.channels@.take(clip.channels@.len() as int) =~= clip.channels@);
}

proof fn lemma_last_time(c: Seq<Channel>, n: int)
    requires
        0 <= n <= c.len(),
    ensures
        forall|k: int| 0 <= k < n && (#[trigger] c[k]).times > 0 ==> c[k].end <= last_time(c.take(n)),
        last_time(c.take(n)) > 0 ==> exists|i: int|
            0 <= i < n && (#[trigger] c[i]).times > 0 && c[i].end == last_time(c.take(n)),
    decreases n,
{
    if n > 0 {
        lemma_last_time(c, n - 1);
        assert(c.take(n).drop_last() =~= c.take(n - 1));
        assert(c.take(n).last() == c[n - 1]);
    }
}

/// The clip that plays has the most channels, of those with as many it lasts longest,
/// and of those it is the first.
pub proof fn lemma_clip_that_plays(clips: &Vec<Clip>, r: Option<usize>, i: int)
    requires
        call_ensures(best_clip, (clips,), r),
        0 <= i < clips@.len(),
    ensures
        r matches Some(b) ==> {
            let n = clips@[b as int].channels@.len();
            let m = clips@[i].channels@.len();
            &&& b < clips@.len() && n > 0 && m <= n
            &&& m == n ==> last_time(clips@[i].channels@) <= last_time(clips@[b as int].channels@)
            &&& m == n && last_time(clips@[i].channels@) == last_time(clips@[b as int].channels@) ==> b <= i
        },
{
    assert(clips.len() == clips@.len());
    if r is Some {
        assert(!better(clips@[i], clips@[r->0 as int]));
        if i < r->0 {
            assert(better(clips@[r->0 as int], clips@[i]));
        }
    }
}

proof fn lemma_track(c: Seq<Channel>, to_local: Seq<Option<usize>>, node: int, kind: TrackKind, n: int)
    requires
        0 <= n <= c.len() <= usize::MAX,
    ensures
        track_of(c.take(n), to_local, node, kind) matches Some(k) ==> k < n && drives(
            c[k as int],
            to_local,
            node,
            kind,
        ) && forall|j: int| k < j < n ==> !drives(#[trigger] c[j], to_local, node, kind),
        track_of(c.take(n), to_local, node, kind) is None ==> forall|j: int|
            0 <= j < n ==> !drives(#[trigger] c[j], to_local, node, kind),
    decreases n,
{
    if n > 0 {
        lemma_track(c, to_local, node, kind, n - 1);
        assert(c.take(n).drop_last() =~= c.take(n - 1));
        assert(c.take(n).last() == c[n - 1]);
    }
}

/// A node is moved by the last channel of each sort that belongs to it and has a value
/// for each of its times: translations move it, rotations turn it, scales size it.
pub proof fn lemma_tracks_of_a_node(n: NodeData, c: Seq<Channel>, to_local: Seq<Option<usize>>, node: int, j: int)
    requires
        c.len() <= usize::MAX,
    ensures
        ({
            let r = with_tracks(n, c, to_local, node);
            let own = |k: int| c[k].times > 0 && to_local[c[k].node as int] == Some(node as usize);
            &&& r.t_anim matches Some(k) ==> k < c.len() && c[k as int].output == TrackOutput::Translations(
                c[k as int].times,
            )
            &&& r.r_anim matches Some(k) ==> k < c.len() && c[k as int].output == TrackOutput::Rotations(
                c[k as int].times,
            )
            &&& r.s_anim matches Some(k) ==> k < c.len() && c[k as int].output == TrackOutput::Scales(
                c[k as int].times,
            )
            &&& 0 <= node <= usize::MAX && 0 <= j < c.len() && own(j) ==> {
                &&& c[j].output == TrackOutput::Translations(c[j].times) ==> r.t_anim is Some && r.t_anim->0 >= j
                &&& c[j].output == TrackOutput::Rotations(c[j].times) ==> r.r_anim is Some && r.r_anim->0 >= j
                &&& c[j].output == TrackOutput::Scales(c[j].times) ==> r.s_anim is Some && r.s_anim->0 >= j
            }
            &&& r.source == n.source && r.parent == n.parent && r.is_turret == n.is_turret && r.is_track
                == n.is_track && r.is_wheel == n.is_wheel && r.spider == n.spider
        }),
{
    assert(c.take(c.len() as int) =~= c);
    lemma_track(c, to_local, node, TrackKind::Translation, c.len() as int);
    lemma_track(c, to_local, node, TrackKind::Rotation, c.len() as int);
    lemma_track(c, to_local, node, TrackKind::Scale, c.len() as int);
    if 0 <= j < c.len() {
        assert(drives(c[j], to_local, node, TrackKind::Translation) || !drives(
            c[j],
            to_local,
            node,
            TrackKind::Translation,
        ));
    }
}

/// Of a shape key track with several keys the first one's values are taken, one for
/// each time.
pub proof fn lemma_first_shape_key(c: Channel, to_local: Seq<Option<usize>>, per: int, i: int)
    requires
        drives_weights(c, to_local),
        c.output->Weights_0@.len() == per * c.times,
        0 <= i < c.times,
    ensures
        per >= 1,
        first_weights(c).len() == c.times,
        first_weights(c)[i] == c.output->Weights_0@[i * per],
{
    let w = c.output->Weights_0@.len() as int;
    assert(w / (c.times as int) == per) by (nonlinear_arith)
        requires
            w == per * c.times,
            c.times > 0,
    ;
}

/// What never moves: a node without a track that is no turret, no track, no wheel and no
/// part of a spidertron, and whose parents are all like it.
pub proof fn lemma_what_never_moves(nodes: &Vec<NodeData>, r: Vec<bool>, i: int)
    requires
        forall|i: int| 0 <= i < nodes@.len() ==> ((#[trigger] nodes@[i]).parent matches Some(p) ==> p < i),
        call_ensures(static_nodes, (nodes,), r),
        0 <= i < nodes@.len(),
    ensures
        ({
            let n = nodes@[i];
            let moves = n.t_anim is Some || n.r_anim is Some || n.s_anim is Some || n.is_turret || n.is_track
                || n.is_wheel || n.spider != SpiderRole::Unposed;
            &&& r@.len() == nodes@.len()
            &&& moves ==> !r@[i]
            &&& !moves && n.parent is None ==> r@[i]
            &&& !moves && n.parent is Some ==> r@[i] == r@[n.parent->0 as int]
        }),
{
    assert(nodes.len() == nodes@.len());
    assert(r.len() == r@.len());
    assert(r@[i] == never_moves(nodes@, i));
    if nodes@[i].parent is Some {
        let p = nodes@[i].parent->0 as int;
        assert(r@[p] == never_moves(nodes@, p));
    }
}

/// All materials but those of joints take the player's colour; occlusion counts where it
/// is in the image of the roughness.
pub proof fn lemma_materials(lower: &str, roughness: Option<usize>, occlusion: Option<usize>, r: MaterialFlags)
    requires
        call_ensures(flags_in, (lower, roughness, occlusion), r),
    ensures
        r.tintable <==> !has_text(lower@, "joint"@),
        r.mr_has_ao <==> (roughness matches Some(a) && occlusion == Some(a)),
{
}

/// A skin is used where each of its joints is in the model and it has as many matrices
/// as joints, or none.
pub proof fn lemma_which_skins_are_used(s: SceneSkin, to_local: Seq<Option<usize>>, k: int)
    ensures
        usable_skin(s, to_local) && 0 <= k < s.joints@.len() ==> to_local[s.joints@[k] as int] is Some,
        usable_skin(s, to_local) ==> (s.binds matches Some(n) ==> n == s.joints@.len()),
        (forall|j: int| 0 <= j < s.joints@.len() ==> to_local[#[trigger] s.joints@[j] as int] is Some) && (s.binds
            is None || s.binds == Some(s.joints@.len() as usize)) && s.joints@.len() <= usize::MAX ==> usable_skin(
            s,
            to_local,
        ),
{
}

proof fn lemma_role_found(nodes: Seq<NodeData>, role: SpiderRole, n: int)
    requires
        0 <= n <= nodes.len() <= usize::MAX,
    ensures
        last_with_role(nodes.take(n), role) matches Some(k) ==> k < n && nodes[k as int].spider == role && forall|
            j: int,
        |
            k < j < n ==> (#[trigger] nodes[j]).spider != role,
        last_with_role(nodes.take(n), role) is None ==> forall|j: int|
            0 <= j < n ==> (#[trigger] nodes[j]).spider != role,
    decreases n,
{
    if n > 0 {
        lemma_role_found(nodes, role, n - 1);
        assert(nodes.take(n).drop_last() =~= nodes.take(n - 1));
        assert(nodes.take(n).last() == nodes[n - 1]);
    }
}

/// A leg is there where all three of its segments are: the last node of each sort with
/// its number. It hangs on the parent of its upper segment.
pub proof fn lemma_legs(nodes: Seq<NodeData>, l: u8)
    requires
        nodes.len() <= usize::MAX,
    ensures
        ({
            let has = |seg: LegSeg| exists|i: int| 0 <= i < nodes.len() && (#[trigger] nodes[i]).spider == SpiderRole::Leg(l, seg);
            &&& leg_of(nodes, l) is Some <==> has(LegSeg::Upper) && has(LegSeg::Lower) && has(LegSeg::Foot)
            &&& leg_of(nodes, l) matches Some(g) ==> {
                &&& g.upper < nodes.len() && nodes[g.upper as int].spider == SpiderRole::Leg(l, LegSeg::Upper)
                &&& g.lower < nodes.len() && nodes[g.lower as int].spider == SpiderRole::Leg(l, LegSeg::Lower)
                &&& g.foot < nodes.len() && nodes[g.foot as int].spider == SpiderRole::Leg(l, LegSeg::Foot)
                &&& nodes[g.upper as int].parent matches Some(p) ==> g.root == p
                &&& nodes[g.upper as int].parent is None ==> g.root == g.upper
            }
        }),
{
    let n = nodes.len() as int;
    assert(nodes.take(n) =~= nodes);
    lemma_role_found(nodes, SpiderRole::Leg(l, LegSeg::Upper), n);
    lemma_role_found(nodes, SpiderRole::Leg(l, LegSeg::Lower), n);
    lemma_role_found(nodes, SpiderRole::Leg(l, LegSeg::Foot), n);
}

/// The nodes of a spidertron's legs are told by their names: `leg`, the number of one of
/// eight legs, and its segment behind an underscore. The torso is called `body`.
pub proof fn lemma_names_of_legs(c: char, seg: LegSeg)
    requires
        '0' <= c <= '7',
    ensures
        ({
            let end = match seg {
                LegSeg::Upper => "upper"@,
                LegSeg::Lower => "lower"@,
                LegSeg::Foot => "foot"@,
            };
            spider_role_of("leg"@ + seq![c, '_'] + end) == SpiderRole::Leg((c as u8 - '0' as u8) as u8, seg)
        }),
        spider_role_of("body"@) == SpiderRole::Body,
{
    reveal_strlit("leg");
    reveal_strlit("body");
    reveal_strlit("upper");
    reveal_strlit("lower");
    reveal_strlit("foot");
    let end = match seg {
        LegSeg::Upper => "upper"@,
        LegSeg::Lower => "lower"@,
        LegSeg::Foot => "foot"@,
    };
    let n = "leg"@ + seq![c, '_'] + end;
    assert(n[0] == 'l');
    assert("body"@[0] == 'b');
    assert(n.subrange(0, 3) =~= "leg"@);
    let rest = n.skip(3);
    assert(rest =~= seq![c, '_'] + end);
    assert(rest[0] == c && rest[1] == '_');
    assert(rest.contains('_'));
    let k = rest.index_of_first('_')->0;
    rest.index_of_first_ensures('_');
    assert(k == 1) by {
        if k > 1 {
            assert(rest[1] != '_');
        }
    }
    assert(rest.take(1) =~= seq![c]);
    assert(rest.skip(2) =~= end);
    let one = seq![c];
    assert(one.last() == c);
    assert(decimal(one) == Some((c as int - '0' as int) as nat));
    assert("upper"@.len() == 5 && "lower"@.len() == 5 && "foot"@.len() == 4);
    assert("upper"@[0] == 'u' && "lower"@[0] == 'l');
    assert(segment_of(end) == Some(seg));
}

} // verus!
