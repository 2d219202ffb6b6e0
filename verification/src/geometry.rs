//! The primitives of a model: how their vertices are laid out, and how those
//! that never move are merged.
//!
//! Models arrive in many small pieces, and each piece costs draw calls. What
//! never moves is therefore merged into one primitive for each material.
//! Floating-point numbers pass through here as the bits of 32-bit floats.

use vstd::prelude::*;

verus! {

/// Words per vertex: position, normal, texture coordinates, the first shape
/// key's offsets of position and normal, four joints and four weights.
pub const VERTEX_FLOATS: usize = 22;

/// A primitive as it is read: its vertices, `VERTEX_FLOATS` words each, and its
/// indices. `skin` is a skin of the model.
#[derive(Debug)]
pub struct PrimData {
    pub node: usize,
    pub skin: Option<usize>,
    pub material: Option<usize>,
    pub vertices: Vec<u32>,
    pub indices: Vec<u32>,
}

/// What a `PrimData` holds.
#[verifier::ext_equal]
pub ghost struct PrimSpec {
    pub node: usize,
    pub skin: Option<usize>,
    pub material: Option<usize>,
    pub vertices: Seq<u32>,
    pub indices: Seq<u32>,
}

impl View for PrimData {
    type V = PrimSpec;

    open spec fn view(&self) -> PrimSpec {
        PrimSpec {
            node: self.node,
            skin: self.skin,
            material: self.material,
            vertices: self.vertices@,
            indices: self.indices@,
        }
    }
}

pub open spec fn prim_views(v: Seq<PrimData>) -> Seq<PrimSpec> {
    v.map_values(|p: PrimData| p@)
}

/// A primitive is merged when it has no skin and its node never moves.
pub open spec fn mergeable(p: PrimSpec, fixed: Seq<bool>) -> bool {
    p.skin is None && fixed[p.node as int]
}

/// The primitives that stay as they are.
pub open spec fn unmerged(prims: Seq<PrimSpec>, fixed: Seq<bool>) -> Seq<PrimSpec>
    decreases prims.len(),
{
    if prims.len() == 0 {
        Seq::empty()
    } else {
        let before = unmerged(prims.drop_last(), fixed);
        if mergeable(prims.last(), fixed) {
            before
        } else {
            before.push(prims.last())
        }
    }
}

/// The materials of the merged primitives, in the order in which they come up.
pub open spec fn merged_materials(prims: Seq<PrimSpec>, fixed: Seq<bool>) -> Seq<Option<usize>>
    decreases prims.len(),
{
    if prims.len() == 0 {
        Seq::empty()
    } else {
        let before = merged_materials(prims.drop_last(), fixed);
        if mergeable(prims.last(), fixed) && !before.contains(prims.last().material) {
            before.push(prims.last().material)
        } else {
            before
        }
    }
}

/// Primitive `p` is merged into the group of material `m`.
pub open spec fn joins(p: PrimSpec, fixed: Seq<bool>, m: Option<usize>) -> bool {
    mergeable(p, fixed) && p.material == m
}

/// The vertices of the group of material `m`.
pub open spec fn group_vertices(prims: Seq<PrimSpec>, fixed: Seq<bool>, m: Option<usize>) -> Seq<u32>
    decreases prims.len(),
{
    if prims.len() == 0 {
        Seq::empty()
    } else {
        let before = group_vertices(prims.drop_last(), fixed, m);
        if joins(prims.last(), fixed, m) {
            before + prims.last().vertices
        } else {
            before
        }
    }
}

/// Indices moved up by `base` vertices.
pub open spec fn shifted(indices: Seq<u32>, base: int) -> Seq<u32> {
    indices.map_values(|i: u32| (i + base) as u32)
}

/// The indices of the group of material `m`: each primitive's own, moved up by
/// the vertices that stand before it.
pub open spec fn group_indices(prims: Seq<PrimSpec>, fixed: Seq<bool>, m: Option<usize>) -> Seq<u32>
    decreases prims.len(),
{
    if prims.len() == 0 {
        Seq::empty()
    } else {
        let before = group_indices(prims.drop_last(), fixed, m);
        let base = group_vertices(prims.drop_last(), fixed, m).len() as int / 22;
        if joins(prims.last(), fixed, m) {
            before + shifted(prims.last().indices, base)
        } else {
            before
        }
    }
}

/// The merged primitive of material `m`.
pub open spec fn group_of(prims: Seq<PrimSpec>, fixed: Seq<bool>, ident: usize, m: Option<usize>) -> PrimSpec {
    PrimSpec {
        node: ident,
        skin: None,
        material: m,
        vertices: group_vertices(prims, fixed, m),
        indices: group_indices(prims, fixed, m),
    }
}

/// The primitives of the model: those that stay, then one for each material of
/// those that are merged.
pub open spec fn merged(prims: Seq<PrimSpec>, fixed: Seq<bool>, ident: usize) -> Seq<PrimSpec> {
    unmerged(prims, fixed) + merged_materials(prims, fixed).map_values(
        |m: Option<usize>| group_of(prims, fixed, ident, m),
    )
}

/// The number of vertices of all primitives.
pub open spec fn vertex_count(prims: Seq<PrimSpec>) -> int
    decreases prims.len(),
{
    if prims.len() == 0 {
        0
    } else {
        vertex_count(prims.drop_last()) + prims.last().vertices.len() as int / 22
    }
}

/// Vertices are whole, nodes exist, and no index can grow past 32 bits.
pub open spec fn prims_fit(prims: Seq<PrimSpec>, fixed: Seq<bool>) -> bool {
    &&& vertex_count(prims) <= u32::MAX
    &&& forall|i: int| 0 <= i < prims.len() ==> (#[trigger] prims[i]).vertices.len() % 22 == 0
        && prims[i].node < fixed.len()
    &&& forall|i: int, k: int|
        0 <= i < prims.len() && 0 <= k < prims[i].indices.len() ==> #[trigger] prims[i].indices[k]
            + vertex_count(prims) <= u32::MAX
}

proof fn lemma_group_size(prims: Seq<PrimSpec>, fixed: Seq<bool>, m: Option<usize>, n: int)
    requires
        0 <= n <= prims.len(),
        forall|i: int| 0 <= i < prims.len() ==> (#[trigger] prims[i]).vertices.len() % 22 == 0,
    ensures
        group_vertices(prims.take(n), fixed, m).len() % 22 == 0,
        group_vertices(prims.take(n), fixed, m).len() as int / 22 <= vertex_count(prims.take(n)),
        0 <= vertex_count(prims.take(n)) <= vertex_count(prims),
    decreases prims.len() + n,
{
    if n > 0 {
        lemma_group_size(prims, fixed, m, n - 1);
        assert(prims.take(n).drop_last() =~= prims.take(n - 1));
        assert(prims.take(n).last() == prims[n - 1]);
    }
    lemma_count_grows(prims, n);
}

proof fn lemma_count_grows(prims: Seq<PrimSpec>, n: int)
    requires
        0 <= n <= prims.len(),
    ensures
        0 <= vertex_count(prims.take(n)) <= vertex_count(prims),
    decreases prims.len(),
{
    if n == prims.len() {
        assert(prims.take(n) =~= prims);
        if n > 0 {
            lemma_count_grows(prims.drop_last(), n - 1);
            assert(prims.drop_last().take(n - 1) =~= prims.drop_last());
        }
    } else {
        lemma_count_grows(prims.drop_last(), n);
        assert(prims.drop_last().take(n) =~= prims.take(n));
    }
}

/// Nothing joins the group of a material that does not come up.
proof fn lemma_no_group(prims: Seq<PrimSpec>, fixed: Seq<bool>, m: Option<usize>)
    requires
        !merged_materials(prims, fixed).contains(m),
    ensures
        group_vertices(prims, fixed, m).len() == 0,
        group_indices(prims, fixed, m).len() == 0,
    decreases prims.len(),
{
    if prims.len() > 0 {
        let before = merged_materials(prims.drop_last(), fixed);
        let after = merged_materials(prims, fixed);
        assert(!before.contains(m)) by {
            if before.contains(m) {
                let i = choose|i: int| 0 <= i < before.len() && before[i] == m;
                assert(after[i] == m);
            }
        }
        lemma_no_group(prims.drop_last(), fixed, m);
        if mergeable(prims.last(), fixed) && prims.last().material == m {
            assert(after[before.len() as int] == m);
        }
    }
}

/// Where the group of a material stands.
fn find_group(groups: &Vec<PrimData>, m: Option<usize>) -> (r: Option<usize>)
    ensures
        r is Some <==> exists|i: int| 0 <= i < groups.len() && (#[trigger] groups@[i]).material == m,
        r matches Some(i) ==> i < groups.len() && groups@[i as int].material == m,
{
    let mut i: usize = 0;
    while i < groups.len()
        invariant
            i <= groups.len(),
            forall|k: int| 0 <= k < i ==> (#[trigger] groups@[k]).material != m,
        decreases groups.len() - i,
    {
        if groups[i].material == m {
            return Some(i);
        }
        i = i + 1;
    }
    None
}

fn append_shifted(to: &mut Vec<u32>, indices: &Vec<u32>, base: u32)
    requires
        forall|k: int| 0 <= k < indices.len() ==> #[trigger] indices@[k] + base <= u32::MAX,
    ensures
        final(to)@ == old(to)@ + shifted(indices@, base as int),
{
    let ghost start = to@;
    let ghost more = shifted(indices@, base as int);
    let mut k: usize = 0;
    assert(start + more.take(0) =~= start);
    while k < indices.len()
        invariant
            k <= indices.len(),
            more == shifted(indices@, base as int),
            forall|i: int| 0 <= i < indices.len() ==> #[trigger] indices@[i] + base <= u32::MAX,
            to@ == start + more.take(k as int),
        decreases indices.len() - k,
    {
        to.push(indices[k] + base);
        assert(start + more.take(k + 1) =~= (start + more.take(k as int)).push(more[k as int]));
        k = k + 1;
    }
    assert(more.take(k as int) =~= more);
}

/// Merges the primitives that never move, one group for each material, all of
/// them on the node `ident`. What moves stays as it is.
pub fn merge_prims(prims: Vec<PrimData>, fixed: &Vec<bool>, ident: usize) -> (r: Vec<PrimData>)
    requires
        prims_fit(prim_views(prims@), fixed@),
    ensures
        prim_views(r@) == merged(prim_views(prims@), fixed@, ident),
{
    let ghost all = prim_views(prims@);
    let ghost f = fixed@;
    let mut rest: Vec<PrimData> = Vec::new();
    let mut groups: Vec<PrimData> = Vec::new();
    let ghost mut n: int = 0;
    proof {
        assert(all.take(0) =~= Seq::<PrimSpec>::empty());
    }
    assert(prim_views(rest@) =~= unmerged(all.take(0), f));
    for p in it: prims
        invariant
            it.seq() == prims@,
            n == it.index(),
            all == prim_views(prims@),
            f == fixed@,
            prims_fit(all, f),
            prim_views(rest@) == unmerged(all.take(n), f),
            groups.len() == merged_materials(all.take(n), f).len(),
            forall|g: int|
                0 <= g < groups.len() ==> (#[trigger] groups@[g])@ == group_of(
                    all.take(n),
                    f,
                    ident,
                    merged_materials(all.take(n), f)[g],
                ),
            merged_materials(all.take(n), f).no_duplicates(),
    {
        let ghost t0 = all.take(n);
        let ghost t1 = all.take(n + 1);
        let ghost pv = p@;
        proof {
            assert(t1.drop_last() =~= t0);
            assert(t1.last() == pv);
            assert(all[n] == pv);
        }
        if p.skin.is_none() && fixed[p.node] {
            let ghost mats0 = merged_materials(t0, f);
            let ghost groups0 = groups@;
            let at: usize = match find_group(&groups, p.material) {
                Some(i) => i,
                None => {
                    let fresh = PrimData {
                        node: ident,
                        skin: None,
                        material: p.material,
                        vertices: Vec::new(),
                        indices: Vec::new(),
                    };
                    groups.push(fresh);
                    groups.len() - 1
                },
            };
            let ghost mats1 = merged_materials(t1, f);
            proof {
                if mats0.contains(pv.material) {
                    let i = choose|i: int| 0 <= i < mats0.len() && mats0[i] == pv.material;
                    assert(groups0[i]@.material == pv.material);
                } else {
                    lemma_no_group(t0, f, pv.material);
                    assert(groups0.len() == at) by {
                        if exists|i: int| 0 <= i < groups0.len() && (#[trigger] groups0[i]).material == pv.material {
                            let i = choose|i: int| 0 <= i < groups0.len() && (#[trigger] groups0[i]).material == pv.material;
                            assert(groups0[i]@.material == mats0[i]);
                            assert(mats0.contains(mats0[i]));
                        }
                    }
                    assert(mats1 == mats0.push(pv.material));
                }
                assert(mats1[at as int] == pv.material);
            }
            let ghost mid = groups@;
            proof {
                assert forall|g: int| 0 <= g < mid.len() implies (#[trigger] mid[g])@ == group_of(t0, f, ident, mats1[g]) by {
                    if g < groups0.len() {
                        assert(mid[g] == groups0[g]);
                        assert(mats1[g] == mats0[g]);
                    } else {
                        assert(mid[g]@.vertices =~= group_vertices(t0, f, pv.material));
                        assert(mid[g]@.indices =~= group_indices(t0, f, pv.material));
                    }
                }
                lemma_group_size(all, f, pv.material, n);
            }
            let mut g: PrimData = groups.remove(at);
            let base: u32 = (g.vertices.len() / VERTEX_FLOATS) as u32;
            proof {
                assert forall|k: int| 0 <= k < p.indices@.len() implies #[trigger] p.indices@[k] + base <= u32::MAX by {
                    assert(all[n].indices[k] + vertex_count(all) <= u32::MAX);
                }
            }
            let mut vertices: Vec<u32> = p.vertices;
            g.vertices.append(&mut vertices);
            append_shifted(&mut g.indices, &p.indices, base);
            let ghost gv = g@;
            groups.insert(at, g);
            proof {
                assert(groups@ =~= mid.update(at as int, g));
                assert(mats1.no_duplicates()) by {
                    if !mats0.contains(pv.material) {
                        assert forall|a: int, b: int| 0 <= a < mats1.len() && 0 <= b < mats1.len() && a != b implies mats1[a] != mats1[b] by {
                            if a < mats0.len() {
                                assert(mats0.contains(mats0[a]));
                            }
                            if b < mats0.len() {
                                assert(mats0.contains(mats0[b]));
                            }
                        }
                    }
                }
                assert forall|k: int| 0 <= k < groups@.len() implies (#[trigger] groups@[k])@ == group_of(t1, f, ident, mats1[k]) by {
                    assert(mid[k]@ == group_of(t0, f, ident, mats1[k]));
                    if k == at {
                        assert(gv =~= group_of(t1, f, ident, pv.material));
                    } else {
                        assert(mats1[k] != pv.material);
                        assert(!joins(pv, f, mats1[k]));
                    }
                }
            }
        } else {
            let ghost rest0 = rest@;
            rest.push(p);
            assert(prim_views(rest@) =~= prim_views(rest0).push(pv));
            proof {
                assert forall|m: Option<usize>| #[trigger] group_vertices(t1, f, m) == group_vertices(t0, f, m)
                    && group_indices(t1, f, m) == group_indices(t0, f, m) by {}
            }
        }
        proof {
            n = n + 1;
        }
    }
    proof {
        assert(all.take(n) =~= all);
    }
    let ghost rest1 = rest@;
    let ghost groups1 = groups@;
    rest.append(&mut groups);
    assert(prim_views(rest@) =~= merged(all, f, ident));
    rest
}

/// The vertices that stand before primitive `i` in its group.
pub open spec fn vertex_base(prims: Seq<PrimSpec>, fixed: Seq<bool>, i: int) -> int {
    group_vertices(prims.take(i), fixed, prims[i].material).len() as int / 22
}

/// The indices that stand before those of primitive `i` in its group.
pub open spec fn index_base(prims: Seq<PrimSpec>, fixed: Seq<bool>, i: int) -> int {
    group_indices(prims.take(i), fixed, prims[i].material).len() as int
}

proof fn lemma_group_prefix(prims: Seq<PrimSpec>, fixed: Seq<bool>, m: Option<usize>, n: int)
    requires
        0 <= n <= prims.len(),
    ensures
        group_vertices(prims.take(n), fixed, m).len() <= group_vertices(prims, fixed, m).len(),
        group_vertices(prims, fixed, m).take(
            group_vertices(prims.take(n), fixed, m).len() as int,
        ) == group_vertices(prims.take(n), fixed, m),
        group_indices(prims.take(n), fixed, m).len() <= group_indices(prims, fixed, m).len(),
        group_indices(prims, fixed, m).take(
            group_indices(prims.take(n), fixed, m).len() as int,
        ) == group_indices(prims.take(n), fixed, m),
    decreases prims.len(),
{
    if n == prims.len() {
        assert(prims.take(n) =~= prims);
        assert(group_vertices(prims, fixed, m).take(group_vertices(prims, fixed, m).len() as int)
            =~= group_vertices(prims, fixed, m));
        assert(group_indices(prims, fixed, m).take(group_indices(prims, fixed, m).len() as int)
            =~= group_indices(prims, fixed, m));
    } else {
        let d = prims.drop_last();
        lemma_group_prefix(d, fixed, m, n);
        assert(d.take(n) =~= prims.take(n));
        let v = group_vertices(prims.take(n), fixed, m);
        let w = group_indices(prims.take(n), fixed, m);
        assert(group_vertices(prims, fixed, m).take(v.len() as int) =~= group_vertices(
            d,
            fixed,
            m,
        ).take(v.len() as int));
        assert(group_indices(prims, fixed, m).take(w.len() as int) =~= group_indices(
            d,
            fixed,
            m,
        ).take(w.len() as int));
    }
}

/// Merging keeps the geometry: each index of a merged primitive has its place
/// in the group, and leads there to the very vertex that it led to before.
pub proof fn lemma_merge_keeps_geometry(prims: Seq<PrimSpec>, fixed: Seq<bool>, i: int, k: int, j: int)
    requires
        prims_fit(prims, fixed),
        0 <= i < prims.len(),
        mergeable(prims[i], fixed),
        0 <= k < prims[i].indices.len(),
        0 <= j < 22,
        22 * (prims[i].indices[k] + 1) <= prims[i].vertices.len(),
    ensures
        ({
            let m = prims[i].material;
            let at = index_base(prims, fixed, i) + k;
            let moved = prims[i].indices[k] + vertex_base(prims, fixed, i);
            &&& merged_materials(prims, fixed).contains(m)
            &&& 0 <= at < group_indices(prims, fixed, m).len()
            &&& group_indices(prims, fixed, m)[at] == moved
            &&& 22 * moved + j < group_vertices(prims, fixed, m).len()
            &&& group_vertices(prims, fixed, m)[22 * moved + j]
                == prims[i].vertices[22 * prims[i].indices[k] + j]
        }),
{
    let m = prims[i].material;
    let t0 = prims.take(i);
    let t1 = prims.take(i + 1);
    assert(t1.drop_last() =~= t0);
    assert(t1.last() == prims[i]);
    lemma_group_prefix(prims, fixed, m, i + 1);
    lemma_group_size(prims, fixed, m, i);
    lemma_count_grows(prims, i);
    let v0 = group_vertices(t0, fixed, m);
    let v1 = group_vertices(t1, fixed, m);
    let w0 = group_indices(t0, fixed, m);
    let w1 = group_indices(t1, fixed, m);
    let base = v0.len() as int / 22;
    let idx = prims[i].indices[k];
    assert(idx + vertex_count(prims) <= u32::MAX);
    assert(w1 == w0 + shifted(prims[i].indices, base));
    assert(w1[w0.len() + k] == (idx + base) as u32);
    assert(group_indices(prims, fixed, m).take(w1.len() as int)[w0.len() + k] == w1[w0.len() + k]);
    assert(v1 == v0 + prims[i].vertices);
    assert(v1[22 * (idx + base) + j] == prims[i].vertices[22 * idx + j]);
    assert(group_vertices(prims, fixed, m).take(v1.len() as int)[22 * (idx + base) + j] == v1[22 * (
    idx + base) + j]);
    lemma_materials_cover(prims, fixed, i);
}

/// The material of every merged primitive has a group.
pub proof fn lemma_materials_cover(prims: Seq<PrimSpec>, fixed: Seq<bool>, i: int)
    requires
        0 <= i < prims.len(),
        mergeable(prims[i], fixed),
    ensures
        merged_materials(prims, fixed).contains(prims[i].material),
    decreases prims.len(),
{
    let before = merged_materials(prims.drop_last(), fixed);
    let after = merged_materials(prims, fixed);
    if i == prims.len() - 1 {
        if !before.contains(prims[i].material) {
            assert(after[before.len() as int] == prims[i].material);
        }
    } else {
        lemma_materials_cover(prims.drop_last(), fixed, i);
        let k = choose|k: int| 0 <= k < before.len() && before[k] == prims[i].material;
        assert(after[k] == prims[i].material);
    }
}

/// There is one merged primitive for each material, however many primitives
/// share it.
pub proof fn lemma_one_group_per_material(prims: Seq<PrimSpec>, fixed: Seq<bool>)
    ensures
        merged_materials(prims, fixed).no_duplicates(),
        merged_materials(prims, fixed).len() + unmerged(prims, fixed).len() <= prims.len(),
    decreases prims.len(),
{
    if prims.len() > 0 {
        lemma_one_group_per_material(prims.drop_last(), fixed);
        let before = merged_materials(prims.drop_last(), fixed);
        let after = merged_materials(prims, fixed);
        assert forall|a: int, b: int| 0 <= a < after.len() && 0 <= b < after.len() && a != b implies after[a]
            != after[b] by {
            if a < before.len() {
                assert(before.contains(before[a]));
            }
            if b < before.len() {
                assert(before.contains(before[b]));
            }
        }
    }
}

/// What stands behind the three numbers of a vertex attribute of a file.
pub type Triple = (u32, u32, u32);

pub type Pair = (u32, u32);

pub type Quad = (u32, u32, u32, u32);

/// The attributes of a primitive as the file holds them. What is not there
/// takes its default. Joints are numbers as floats.
#[derive(Debug)]
pub struct Attributes {
    pub positions: Vec<Triple>,
    pub normals: Option<Vec<Triple>>,
    pub uvs: Option<Vec<Pair>>,
    pub morph_positions: Option<Vec<Triple>>,
    pub morph_normals: Option<Vec<Triple>>,
    pub joints: Option<Vec<Quad>>,
    pub weights: Option<Vec<Quad>>,
}

/// The bits of 1 as a float.
pub const ONE_BITS: u32 = 0x3f80_0000;

/// Element `i` of an attribute that must be as long as the positions.
pub open spec fn at_or<T>(v: Option<Vec<T>>, i: int, default_value: T) -> T {
    match v {
        Some(v) => v@[i],
        None => default_value,
    }
}

/// Element `i` of an attribute that may be shorter than the positions.
pub open spec fn at_or_short<T>(v: Option<Vec<T>>, i: int, default_value: T) -> T {
    match v {
        Some(v) => if i < v@.len() {
            v@[i]
        } else {
            default_value
        },
        None => default_value,
    }
}

pub open spec fn two(p: Pair) -> Seq<u32> {
    seq![p.0, p.1]
}

pub open spec fn three(t: Triple) -> Seq<u32> {
    seq![t.0, t.1, t.2]
}

pub open spec fn four(q: Quad) -> Seq<u32> {
    seq![q.0, q.1, q.2, q.3]
}

/// The words of vertex `i`.
pub open spec fn vertex_words(a: Attributes, i: int) -> Seq<u32> {
    let p = a.positions@[i];
    let n = at_or(a.normals, i, (0u32, ONE_BITS, 0u32));
    let t = at_or(a.uvs, i, (0u32, 0u32));
    let dp = at_or_short(a.morph_positions, i, (0u32, 0u32, 0u32));
    let dn = at_or_short(a.morph_normals, i, (0u32, 0u32, 0u32));
    let j = at_or(a.joints, i, (0u32, 0u32, 0u32, 0u32));
    let w = at_or(a.weights, i, (0u32, 0u32, 0u32, 0u32));
    three(p) + three(n) + two(t) + three(dp) + three(dn) + four(j) + four(w)
}

/// The words of the first `n` vertices.
pub open spec fn vertex_stream(a: Attributes, n: int) -> Seq<u32>
    decreases n,
{
    if n <= 0 {
        Seq::empty()
    } else {
        vertex_stream(a, n - 1) + vertex_words(a, n - 1)
    }
}

/// Attributes that have to cover every position do.
pub open spec fn attributes_cover(a: Attributes) -> bool {
    let n = a.positions@.len();
    &&& a.normals is Some ==> a.normals->0@.len() >= n
    &&& a.uvs is Some ==> a.uvs->0@.len() >= n
    &&& a.joints is Some ==> a.joints->0@.len() >= n
    &&& a.weights is Some ==> a.weights->0@.len() >= n
}

fn get_or<T: Copy>(v: &Option<Vec<T>>, i: usize, default_value: T) -> (r: T)
    requires
        v matches Some(w) ==> i < w.len(),
    ensures
        r == at_or(*v, i as int, default_value),
{
    match v {
        Some(w) => w[i],
        None => default_value,
    }
}

fn get_or_short<T: Copy>(v: &Option<Vec<T>>, i: usize, default_value: T) -> (r: T)
    ensures
        r == at_or_short(*v, i as int, default_value),
{
    match v {
        Some(w) => if i < w.len() {
            w[i]
        } else {
            default_value
        },
        None => default_value,
    }
}

fn push_two(out: &mut Vec<u32>, p: Pair)
    ensures
        final(out)@ == old(out)@ + two(p),
{
    out.push(p.0);
    out.push(p.1);
    assert(out@ =~= old(out)@ + two(p));
}

fn push_three(out: &mut Vec<u32>, t: Triple)
    ensures
        final(out)@ == old(out)@ + three(t),
{
    out.push(t.0);
    out.push(t.1);
    out.push(t.2);
    assert(out@ =~= old(out)@ + three(t));
}

fn push_four(out: &mut Vec<u32>, q: Quad)
    ensures
        final(out)@ == old(out)@ + four(q),
{
    out.push(q.0);
    out.push(q.1);
    out.push(q.2);
    out.push(q.3);
    assert(out@ =~= old(out)@ + four(q));
}

/// Interleaves the attributes of a primitive into vertices.
pub fn interleave(a: &Attributes) -> (r: Vec<u32>)
    requires
        attributes_cover(*a),
    ensures
        r@ == vertex_stream(*a, a.positions@.len() as int),
{
    let mut out: Vec<u32> = Vec::new();
    let mut i: usize = 0;
    while i < a.positions.len()
        invariant
            i <= a.positions.len(),
            attributes_cover(*a),
            out@ == vertex_stream(*a, i as int),
        decreases a.positions.len() - i,
    {
        let ghost before = out@;
        let p: Triple = a.positions[i];
        let n: Triple = get_or(&a.normals, i, (0, ONE_BITS, 0));
        let t: Pair = get_or(&a.uvs, i, (0, 0));
        let dp: Triple = get_or_short(&a.morph_positions, i, (0, 0, 0));
        let dn: Triple = get_or_short(&a.morph_normals, i, (0, 0, 0));
        let j: Quad = get_or(&a.joints, i, (0, 0, 0, 0));
        let w: Quad = get_or(&a.weights, i, (0, 0, 0, 0));
        push_three(&mut out, p);
        push_three(&mut out, n);
        push_two(&mut out, t);
        push_three(&mut out, dp);
        push_three(&mut out, dn);
        push_four(&mut out, j);
        push_four(&mut out, w);
        assert(out@ =~= before + vertex_words(*a, i as int));
        i = i + 1;
    }
    out
}

/// Every vertex takes the same number of words.
pub proof fn lemma_stream_len(a: Attributes, n: int)
    requires
        n >= 0,
    ensures
        vertex_stream(a, n).len() == 22 * n,
    decreases n,
{
    if n > 0 {
        lemma_stream_len(a, n - 1);
    }
}

/// Word `k` of vertex `i` is word `k` of what belongs to that vertex.
proof fn lemma_stream_word(a: Attributes, n: int, i: int, k: int)
    requires
        0 <= i < n,
        0 <= k < 22,
    ensures
        vertex_stream(a, n).len() == 22 * n,
        vertex_stream(a, n)[22 * i + k] == vertex_words(a, i)[k],
    decreases n,
{
    lemma_stream_len(a, n);
    lemma_stream_len(a, n - 1);
    if i < n - 1 {
        lemma_stream_word(a, n - 1, i, k);
    }
}

/// Where each number of a vertex stands among its words: the position first, the
/// normal from the fourth, the texture coordinates from the seventh, the shape
/// key's offsets of position and normal from the ninth and the twelfth, the joints
/// from the fifteenth and their weights from the nineteenth. A normal that is not
/// there points up; anything else that is not there is zero.
pub proof fn lemma_vertex_layout(a: &Attributes, r: Vec<u32>, i: int)
    requires
        attributes_cover(*a),
        call_ensures(interleave, (a,), r),
        0 <= i < a.positions@.len(),
    ensures
        r@.len() == 22 * a.positions@.len(),
        r@[22 * i] == a.positions@[i].0,
        r@[22 * i + 1] == a.positions@[i].1,
        r@[22 * i + 2] == a.positions@[i].2,
        a.normals matches Some(n) ==> r@[22 * i + 3] == n@[i].0 && r@[22 * i + 4] == n@[i].1 && r@[22 * i
            + 5] == n@[i].2,
        a.normals is None ==> r@[22 * i + 3] == 0 && r@[22 * i + 4] == 0x3f80_0000 && r@[22 * i + 5] == 0,
        a.uvs matches Some(t) ==> r@[22 * i + 6] == t@[i].0 && r@[22 * i + 7] == t@[i].1,
        a.uvs is None ==> r@[22 * i + 6] == 0 && r@[22 * i + 7] == 0,
        a.morph_positions matches Some(m) ==> i < m@.len() ==> r@[22 * i + 8] == m@[i].0 && r@[22 * i + 9]
            == m@[i].1 && r@[22 * i + 10] == m@[i].2,
        !(a.morph_positions matches Some(m) && i < m@.len()) ==> r@[22 * i + 8] == 0 && r@[22 * i + 9] == 0
            && r@[22 * i + 10] == 0,
        a.morph_normals matches Some(m) ==> i < m@.len() ==> r@[22 * i + 11] == m@[i].0 && r@[22 * i + 12]
            == m@[i].1 && r@[22 * i + 13] == m@[i].2,
        !(a.morph_normals matches Some(m) && i < m@.len()) ==> r@[22 * i + 11] == 0 && r@[22 * i + 12] == 0
            && r@[22 * i + 13] == 0,
        a.joints matches Some(j) ==> r@[22 * i + 14] == j@[i].0 && r@[22 * i + 15] == j@[i].1 && r@[22 * i
            + 16] == j@[i].2 && r@[22 * i + 17] == j@[i].3,
        a.joints is None ==> r@[22 * i + 14] == 0 && r@[22 * i + 15] == 0 && r@[22 * i + 16] == 0
            && r@[22 * i + 17] == 0,
        a.weights matches Some(w) ==> r@[22 * i + 18] == w@[i].0 && r@[22 * i + 19] == w@[i].1 && r@[22 * i
            + 20] == w@[i].2 && r@[22 * i + 21] == w@[i].3,
        a.weights is None ==> r@[22 * i + 18] == 0 && r@[22 * i + 19] == 0 && r@[22 * i + 20] == 0
            && r@[22 * i + 21] == 0,
{
    let n = a.positions@.len() as int;
    assert forall|k: int| 0 <= k < 22 implies r@[#[trigger] (22 * i + k)] == vertex_words(*a, i)[k] by {
        lemma_stream_word(*a, n, i, k);
    }
    lemma_stream_len(*a, n);
    assert(r@[22 * i + 0] == vertex_words(*a, i)[0]);
}

/// Indices that count up, for primitives that have none.
pub fn default_indices(count: u32) -> (r: Vec<u32>)
    ensures
        r@ == Seq::new(count as nat, |i: int| i as u32),
{
    let mut r: Vec<u32> = Vec::new();
    let mut i: u32 = 0;
    while i < count
        invariant
            i <= count,
            r@ == Seq::new(i as nat, |k: int| k as u32),
        decreases count - i,
    {
        r.push(i);
        assert(r@ =~= Seq::new((i + 1) as nat, |k: int| k as u32));
        i = i + 1;
    }
    r
}

/// What has a skin or hangs off a node that moves stays as it is.
pub proof fn lemma_what_moves_stays(prims: Vec<PrimData>, fixed: &Vec<bool>, ident: usize, r: Vec<PrimData>, i: int)
    requires
        prims_fit(prim_views(prims@), fixed@),
        call_ensures(merge_prims, (prims, fixed, ident), r),
        0 <= i < prims@.len(),
        prims@[i].skin is Some || !fixed@[prims@[i].node as int],
    ensures
        exists|k: int| 0 <= k < r@.len() && (#[trigger] r@[k])@ == prims@[i]@,
{
    let p = prim_views(prims@);
    let v = prim_views(r@);
    assert(p[i] == prims@[i]@);
    lemma_unmerged_kept(p, fixed@, i);
    let u = unmerged(p, fixed@);
    let k = choose|k: int| 0 <= k < u.len() && u[k] == p[i];
    assert(v == merged(p, fixed@, ident));
    assert(v.len() == r@.len());
    assert(k < v.len());
    assert(v[k] == u[k]);
    assert(r@[k]@ == v[k]);
}

proof fn lemma_unmerged_kept(prims: Seq<PrimSpec>, fixed: Seq<bool>, i: int)
    requires
        0 <= i < prims.len(),
        !mergeable(prims[i], fixed),
    ensures
        unmerged(prims, fixed).contains(prims[i]),
    decreases prims.len(),
{
    let b = unmerged(prims.drop_last(), fixed);
    let u = unmerged(prims, fixed);
    if i < prims.len() - 1 {
        lemma_unmerged_kept(prims.drop_last(), fixed, i);
        let k = choose|k: int| 0 <= k < b.len() && b[k] == prims[i];
        assert(u[k] == prims[i]);
    } else {
        assert(u[b.len() as int] == prims[i]);
    }
}

/// What has no skin and hangs off a node that never moves is drawn with the others of
/// its material, off one node: each of its indices leads there to the vertex that it led
/// to before.
pub proof fn lemma_what_rests_is_merged(prims: Vec<PrimData>, fixed: &Vec<bool>, ident: usize, r: Vec<PrimData>, i: int, k: int, j: int)
    requires
        prims_fit(prim_views(prims@), fixed@),
        call_ensures(merge_prims, (prims, fixed, ident), r),
        0 <= i < prims@.len(),
        prims@[i].skin is None,
        fixed@[prims@[i].node as int],
        0 <= k < prims@[i].indices@.len(),
        0 <= j < 22,
        22 * (prims@[i].indices@[k] + 1) <= prims@[i].vertices@.len(),
    ensures
        exists|g: int, at: int|
            {
                &&& 0 <= g < r@.len()
                &&& r@[g].node == ident
                &&& r@[g].skin is None
                &&& r@[g].material == prims@[i].material
                &&& 0 <= at < r@[g].indices@.len()
                &&& 22 * #[trigger] r@[g].indices@[at] + j < r@[g].vertices@.len()
                &&& r@[g].vertices@[22 * r@[g].indices@[at] + j] == prims@[i].vertices@[22 * prims@[i].indices@[k] + j]
            },
{
    let p = prim_views(prims@);
    let v = prim_views(r@);
    let f = fixed@;
    assert(p[i] == prims@[i]@);
    lemma_merge_keeps_geometry(p, f, i, k, j);
    let m = p[i].material;
    let mats = merged_materials(p, f);
    let x = choose|x: int| 0 <= x < mats.len() && mats[x] == m;
    let g = unmerged(p, f).len() + x;
    assert(v == merged(p, f, ident));
    assert(v.len() == r@.len());
    assert(g < v.len());
    assert(v[g] == group_of(p, f, ident, m));
    assert(r@[g]@ == v[g]);
    let at = index_base(p, f, i) + k;
    assert(r@[g].indices@[at] == p[i].indices[k] + vertex_base(p, f, i));
}

} // verus!
