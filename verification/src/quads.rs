//! The quads of a frame: what the recorded sprites become when the view is
//! tilted.
//!
//! The work is done in two steps. The first joins the parts of the batches into
//! drafts, with the place that each stands on. The view's transform is then
//! applied to the drafts by the caller, who reports how each one fits on the
//! screen. The second step drops what does not fit, picks the tile that each quad
//! is drawn from and puts the quads in order.

use crate::order::stable_order;
use crate::renderer::{
    anchor_of, anchors, far_first, group_anchor, group_specials, hi_tile, order_quads, serials_of,
    standing, standing_parts, union_of, GroupAnchor, PartRect, SpecialGroup, LIVE_TILE,
    MAX_BILLBOARDS,
};
use vstd::prelude::*;

verus! {

/// A batch as it is seen from the current view.
#[derive(Debug)]
pub struct Batch {
    /// The view that the batch was recorded under is close to the current one.
    pub usable: bool,
    /// It is so close that moving entities can be drawn from it.
    pub fresh: bool,
    pub rects: Vec<PartRect>,
}

/// What a quad is made of.
#[derive(Clone, Copy, PartialEq, Eq, Structural, Debug)]
pub enum Draft {
    /// All parts of a moving entity, and what it is anchored by.
    Group(SpecialGroup, GroupAnchor),
    /// A part of a standing entity, with the lower edge and the centre of the
    /// part that it stands on.
    Part(PartRect, i32, i32),
}

/// The anchor of a moving entity.
pub open spec fn anchor_kind(g: SpecialGroup, first_person: bool, view_known: bool) -> GroupAnchor {
    if g.player && first_person {
        GroupAnchor::Hidden
    } else if g.flat {
        GroupAnchor::Flat
    } else if g.fly {
        GroupAnchor::Fly
    } else if g.player || g.unit || !view_known {
        GroupAnchor::LowerEdge
    } else {
        GroupAnchor::MapPosition
    }
}

/// The moving entities among the first `n` serial numbers that are drawn.
pub open spec fn group_drafts(s: Seq<PartRect>, first_person: bool, view_known: bool, n: int) -> Seq<Draft>
    decreases n,
{
    if n <= 0 {
        Seq::empty()
    } else {
        let before = group_drafts(s, first_person, view_known, n - 1);
        let g = union_of(s, serials_of(s)[n - 1])->0;
        let a = anchor_kind(g, first_person, view_known);
        if a == GroupAnchor::Hidden {
            before
        } else {
            before.push(Draft::Group(g, a))
        }
    }
}

/// The parts of standing entities.
pub open spec fn part_drafts(s: Seq<PartRect>) -> Seq<Draft> {
    Seq::new(
        s.len(),
        |i: int| Draft::Part(s[i], anchor_of(s, i).0, anchor_of(s, i).1),
    )
}

/// The drafts of one batch: its moving entities, then its standing parts.
pub open spec fn drafts_of(b: Batch, first_person: bool, view_known: bool) -> Seq<Draft> {
    let s = b.rects@;
    if !b.usable {
        Seq::empty()
    } else if b.fresh {
        group_drafts(s, first_person, view_known, serials_of(s).len() as int) + part_drafts(
            standing(s),
        )
    } else {
        part_drafts(standing(s))
    }
}

/// The drafts of the first `n` batches.
pub open spec fn all_drafts(b: Seq<Batch>, first_person: bool, view_known: bool, n: int) -> Seq<Draft>
    decreases n,
{
    if n <= 0 {
        Seq::empty()
    } else {
        all_drafts(b, first_person, view_known, n - 1) + drafts_of(
            b[n - 1],
            first_person,
            view_known,
        )
    }
}

fn push_groups(out: &mut Vec<Draft>, rects: &Vec<PartRect>, first_person: bool, view_known: bool)
    ensures
        final(out)@ == old(out)@ + group_drafts(
            rects@,
            first_person,
            view_known,
            serials_of(rects@).len() as int,
        ),
{
    let groups: Vec<SpecialGroup> = group_specials(rects);
    let ghost s = rects@;
    let ghost was = out@;
    proof {
        let serials = groups@.map_values(|g: SpecialGroup| g.grp);
        assert(serials.len() == groups@.len());
    }
    let mut i: usize = 0;
    while i < groups.len()
        invariant
            i <= groups.len(),
            s == rects@,
            groups@.map_values(|g: SpecialGroup| g.grp) == serials_of(s),
            groups.len() == serials_of(s).len(),
            forall|k: int| 0 <= k < groups.len() ==> union_of(s, (#[trigger] groups@[k]).grp) == Some(groups@[k]),
            out@ == was + group_drafts(s, first_person, view_known, i as int),
        decreases groups.len() - i,
    {
        let g: SpecialGroup = groups[i];
        assert(groups@.map_values(|g: SpecialGroup| g.grp)[i as int] == g.grp);
        assert(union_of(s, groups@[i as int].grp) == Some(g));
        let a: GroupAnchor = group_anchor(&g, first_person, view_known);
        match a {
            GroupAnchor::Hidden => {},
            _ => {
                out.push(Draft::Group(g, a));
            },
        }
        assert(out@ =~= was + group_drafts(s, first_person, view_known, i + 1));
        i = i + 1;
    }
}

fn push_parts(out: &mut Vec<Draft>, rects: &Vec<PartRect>)
    ensures
        final(out)@ == old(out)@ + part_drafts(standing(rects@)),
{
    let parts: Vec<PartRect> = standing_parts(rects);
    let feet: Vec<(i32, i32)> = anchors(&parts);
    let ghost want = part_drafts(parts@);
    let ghost was = out@;
    let mut i: usize = 0;
    while i < parts.len()
        invariant
            i <= parts.len(),
            feet.len() == parts.len(),
            want == part_drafts(parts@),
            forall|k: int| 0 <= k < parts.len() ==> #[trigger] feet@[k] == anchor_of(parts@, k),
            out@ == was + want.take(i as int),
        decreases parts.len() - i,
    {
        assert(feet@[i as int] == anchor_of(parts@, i as int));
        out.push(Draft::Part(parts[i], feet[i].0, feet[i].1));
        assert(want.take(i + 1) =~= want.take(i as int).push(want[i as int]));
        assert(out@ =~= was + want.take(i + 1));
        i = i + 1;
    }
    assert(want.take(i as int) =~= want);
}

/// The drafts of a frame, batch by batch. Moving entities come from fresh batches
/// only, one draft for each of them; the player's own is left out in first
/// person. Every other part is a draft of its own.
pub fn draft_quads(batches: &Vec<Batch>, first_person: bool, view_known: bool) -> (r: Vec<Draft>)
    ensures
        r@ == all_drafts(batches@, first_person, view_known, batches@.len() as int),
{
    let mut out: Vec<Draft> = Vec::new();
    let mut i: usize = 0;
    while i < batches.len()
        invariant
            i <= batches.len(),
            out@ == all_drafts(batches@, first_person, view_known, i as int),
        decreases batches.len() - i,
    {
        let b: &Batch = &batches[i];
        let ghost was = out@;
        if b.usable {
            if b.fresh {
                push_groups(&mut out, &b.rects, first_person, view_known);
            }
            push_parts(&mut out, &b.rects);
        }
        assert(out@ =~= was + drafts_of(batches@[i as int], first_person, view_known));
        i = i + 1;
    }
    out
}

/// How a draft fits on the screen.
#[derive(Clone, Copy, PartialEq, Eq, Structural, Debug)]
pub struct Fit {
    /// It covers most of the screen.
    pub too_large: bool,
    pub off_screen: bool,
    /// Its foot is at the far edge of the ground.
    pub foot_far: bool,
    /// Its foot is beside the screen.
    pub foot_beside: bool,
    /// It is a banner that hovers above the entity's feet.
    pub banner: bool,
    /// Its anchor is on the tile that is captured each frame.
    pub in_live: bool,
    /// The tile that its anchor is on.
    pub tx: usize,
    pub ty: usize,
    /// How far away it is: a larger key is farther.
    pub depth: i32,
}

/// How far a quad is lifted off the ground.
#[derive(Clone, Copy, PartialEq, Eq, Structural, Debug)]
pub enum Lift {
    Ground,
    Robot,
    Platform,
}

/// A quad that is drawn.
#[derive(Clone, Copy, PartialEq, Eq, Structural, Debug)]
pub struct Quad {
    /// The draft that it shows.
    pub draft: usize,
    /// The tile of the sharp capture that it is drawn from.
    pub tile: Option<usize>,
    pub flat: bool,
    pub lift: Lift,
}

/// The draft is drawn.
pub open spec fn shows(d: Draft, f: Fit) -> bool {
    !f.off_screen && match d {
        Draft::Group(g, a) => !f.too_large && (a == GroupAnchor::Flat || !f.foot_far
            && !f.foot_beside),
        Draft::Part(r, vb, uc) => !f.foot_far && !f.banner,
    }
}

/// The tile that a draft is drawn from.
pub open spec fn tile_of(d: Draft, f: Fit, hi_ok: bool, grid: usize, covered: Seq<bool>) -> Option<usize> {
    let live = if f.in_live {
        Some(LIVE_TILE)
    } else {
        None
    };
    if !hi_ok {
        None
    } else {
        match d {
            Draft::Group(g, a) => if a == GroupAnchor::Flat {
                None
            } else {
                live
            },
            Draft::Part(r, vb, uc) => if r.special {
                live
            } else if covered[f.ty * grid + f.tx] {
                Some((f.ty * grid + f.tx) as usize)
            } else {
                None
            },
        }
    }
}

pub open spec fn lies_flat(d: Draft) -> bool {
    match d {
        Draft::Group(g, a) => a == GroupAnchor::Flat,
        Draft::Part(r, vb, uc) => r.flat,
    }
}

pub open spec fn lift_of(d: Draft) -> Lift {
    match d {
        Draft::Group(g, a) => if a != GroupAnchor::Flat && g.fly {
            Lift::Robot
        } else {
            Lift::Ground
        },
        Draft::Part(r, vb, uc) => if r.elevated_flat {
            Lift::Platform
        } else {
            Lift::Ground
        },
    }
}

/// The quads of the first `n` drafts, as they were recorded.
pub open spec fn quads_of(
    d: Seq<Draft>,
    f: Seq<Fit>,
    hi_ok: bool,
    grid: usize,
    covered: Seq<bool>,
    n: int,
) -> Seq<Quad>
    decreases n,
{
    if n <= 0 {
        Seq::empty()
    } else {
        let before = quads_of(d, f, hi_ok, grid, covered, n - 1);
        if shows(d[n - 1], f[n - 1]) {
            before.push(
                Quad {
                    draft: (n - 1) as usize,
                    tile: tile_of(d[n - 1], f[n - 1], hi_ok, grid, covered),
                    flat: lies_flat(d[n - 1]),
                    lift: lift_of(d[n - 1]),
                },
            )
        } else {
            before
        }
    }
}

/// How far away the quads are.
pub open spec fn depths_of(q: Seq<Quad>, f: Seq<Fit>) -> Seq<i32> {
    q.map_values(|q: Quad| f[q.draft as int].depth)
}

/// The quads in an order. Of too many, the last ones stay.
pub open spec fn in_order(q: Seq<Quad>, all: Seq<usize>) -> Seq<Quad> {
    let kept = if all.len() > MAX_BILLBOARDS {
        all.skip(all.len() - MAX_BILLBOARDS)
    } else {
        all
    };
    kept.map_values(|i: usize| q[i as int])
}

fn quad_of(i: usize, d: &Draft, f: &Fit, hi_ok: bool, grid: usize, covered: &Vec<bool>) -> (r: Option<Quad>)
    requires
        1 <= grid <= 2,
        f.tx < grid,
        f.ty < grid,
        covered.len() == 5,
    ensures
        r is Some <==> shows(*d, *f),
        r matches Some(q) ==> q == (Quad {
            draft: i,
            tile: tile_of(*d, *f, hi_ok, grid, covered@),
            flat: lies_flat(*d),
            lift: lift_of(*d),
        }),
{
    if f.off_screen {
        return None;
    }
    match d {
        Draft::Group(g, a) => {
            let flat: bool = *a == GroupAnchor::Flat;
            if f.too_large || (!flat && (f.foot_far || f.foot_beside)) {
                return None;
            }
            let tile: Option<usize> = if flat {
                None
            } else {
                hi_tile(hi_ok, true, f.in_live, grid, f.tx, f.ty, covered)
            };
            let lift: Lift = if !flat && g.fly {
                Lift::Robot
            } else {
                Lift::Ground
            };
            Some(Quad { draft: i, tile, flat, lift })
        },
        Draft::Part(r, _vb, _uc) => {
            if f.foot_far || f.banner {
                return None;
            }
            let tile: Option<usize> = hi_tile(
                hi_ok,
                r.special,
                f.in_live,
                grid,
                f.tx,
                f.ty,
                covered,
            );
            let lift: Lift = if r.elevated_flat {
                Lift::Platform
            } else {
                Lift::Ground
            };
            Some(Quad { draft: i, tile, flat: r.flat, lift })
        },
    }
}

/// The quads of a frame, in the order in which they are drawn: the farthest
/// first, those of one depth as they were recorded. Beyond the limit the farthest
/// are dropped.
pub fn build_billboards(
    drafts: &Vec<Draft>,
    fits: &Vec<Fit>,
    hi_ok: bool,
    grid: usize,
    covered: &Vec<bool>,
) -> (r: Vec<Quad>)
    requires
        fits.len() == drafts.len(),
        1 <= grid <= 2,
        covered.len() == 5,
        forall|i: int| 0 <= i < fits.len() ==> (#[trigger] fits@[i]).tx < grid && fits@[i].ty < grid,
    ensures
        exists|all: Seq<usize>| #[trigger]
            stable_order(
                far_first(
                    depths_of(
                        quads_of(drafts@, fits@, hi_ok, grid, covered@, drafts@.len() as int),
                        fits@,
                    ),
                ),
                all,
            ) && r@ == in_order(
                quads_of(drafts@, fits@, hi_ok, grid, covered@, drafts@.len() as int),
                all,
            ),
{
    let mut quads: Vec<Quad> = Vec::new();
    let mut depths: Vec<i32> = Vec::new();
    let mut i: usize = 0;
    while i < drafts.len()
        invariant
            i <= drafts.len(),
            fits.len() == drafts.len(),
            1 <= grid <= 2,
            covered.len() == 5,
            forall|k: int| 0 <= k < fits.len() ==> (#[trigger] fits@[k]).tx < grid && fits@[k].ty < grid,
            quads@ == quads_of(drafts@, fits@, hi_ok, grid, covered@, i as int),
            depths@ == depths_of(quads@, fits@),
        decreases drafts.len() - i,
    {
        assert(fits@[i as int].tx < grid);
        match quad_of(i, &drafts[i], &fits[i], hi_ok, grid, covered) {
            Some(q) => {
                quads.push(q);
                depths.push(fits[i].depth);
                assert(depths@ =~= depths_of(quads@, fits@));
            },
            None => {},
        }
        i = i + 1;
    }
    let order: Vec<usize> = order_quads(&depths);
    let ghost all = choose|all: Seq<usize>| #[trigger]
        stable_order(far_first(depths@), all) && order@ == if all.len() > MAX_BILLBOARDS {
            all.skip(all.len() - MAX_BILLBOARDS)
        } else {
            all
        };
    let ghost want = in_order(quads@, all);
    let mut r: Vec<Quad> = Vec::new();
    let mut k: usize = 0;
    while k < order.len()
        invariant
            k <= order.len(),
            stable_order(far_first(depths@), all),
            depths.len() == quads.len(),
            order@ == if all.len() > MAX_BILLBOARDS {
                all.skip(all.len() - MAX_BILLBOARDS)
            } else {
                all
            },
            want == in_order(quads@, all),
            want.len() == order.len(),
            r@ == want.take(k as int),
        decreases order.len() - k,
    {
        proof {
            let shift = if all.len() > MAX_BILLBOARDS {
                all.len() - MAX_BILLBOARDS
            } else {
                0int
            };
            assert(order@[k as int] == all[k + shift]);
            assert(far_first(depths@).len() == depths@.len());
        }
        r.push(quads[order[k]]);
        assert(want.take(k + 1) =~= want.take(k as int).push(want[k as int]));
        k = k + 1;
    }
    assert(want.take(k as int) =~= want);
    r
}

/// A quad that is drawn shows a draft that fits, and no draft is drawn twice.
pub proof fn lemma_quads_fit(
    d: Seq<Draft>,
    f: Seq<Fit>,
    hi_ok: bool,
    grid: usize,
    covered: Seq<bool>,
    n: int,
)
    requires
        0 <= n <= d.len(),
        n <= usize::MAX,
        d.len() == f.len(),
    ensures
        forall|i: int|
            0 <= i < quads_of(d, f, hi_ok, grid, covered, n).len() ==> {
                let q = #[trigger] quads_of(d, f, hi_ok, grid, covered, n)[i];
                q.draft < n && shows(d[q.draft as int], f[q.draft as int])
            },
        forall|i: int, j: int|
            0 <= i < j < quads_of(d, f, hi_ok, grid, covered, n).len() ==> (#[trigger] quads_of(
                d,
                f,
                hi_ok,
                grid,
                covered,
                n,
            )[i]).draft < (#[trigger] quads_of(d, f, hi_ok, grid, covered, n)[j]).draft,
    decreases n,
{
    if n > 0 {
        lemma_quads_fit(d, f, hi_ok, grid, covered, n - 1);
    }
}

/// Every draft that fits is drawn.
pub proof fn lemma_fitting_drawn(
    d: Seq<Draft>,
    f: Seq<Fit>,
    hi_ok: bool,
    grid: usize,
    covered: Seq<bool>,
    n: int,
    k: int,
)
    requires
        0 <= k < n <= d.len(),
        n <= usize::MAX,
        d.len() == f.len(),
        shows(d[k], f[k]),
    ensures
        exists|i: int|
            0 <= i < quads_of(d, f, hi_ok, grid, covered, n).len() && (#[trigger] quads_of(
                d,
                f,
                hi_ok,
                grid,
                covered,
                n,
            )[i]).draft == k,
    decreases n,
{
    let q = quads_of(d, f, hi_ok, grid, covered, n);
    if k == n - 1 {
        assert(q[q.len() - 1].draft == k);
    } else {
        lemma_fitting_drawn(d, f, hi_ok, grid, covered, n - 1, k);
        let p = quads_of(d, f, hi_ok, grid, covered, n - 1);
        let i = choose|i: int| 0 <= i < p.len() && (#[trigger] p[i]).draft == k;
        assert(q[i] == p[i]);
    }
}

/// First person hides the player: no draft is the player's own.
pub proof fn lemma_player_hidden(s: Seq<PartRect>, view_known: bool, n: int)
    ensures
        forall|i: int|
            0 <= i < group_drafts(s, true, view_known, n).len() ==> match #[trigger] group_drafts(
                s,
                true,
                view_known,
                n,
            )[i] {
                Draft::Group(g, a) => !g.player,
                Draft::Part(r, vb, uc) => false,
            },
    decreases n,
{
    if n > 0 {
        lemma_player_hidden(s, view_known, n - 1);
    }
}

/// What is on the screen is drawn, but for what stands at the far edge of the ground,
/// a moving entity that covers most of the screen or stands beside it, and the banner
/// that hovers above a building. What lies flat needs no foot.
pub proof fn lemma_which_drafts_show(d: Draft, f: Fit)
    ensures
        f.off_screen ==> !shows(d, f),
        d matches Draft::Group(g, a) ==> (shows(d, f) <==> !f.off_screen && !f.too_large && (a
            == GroupAnchor::Flat || !(f.foot_far || f.foot_beside))),
        d matches Draft::Part(r, vb, uc) ==> (shows(d, f) <==> !f.off_screen && !f.foot_far && !f.banner),
{
}

/// What moves is drawn from the live tile where it is on it, what stands from the tile
/// that it is on where that was captured; without a sharp capture, and for what lies
/// flat and moves, there is none. Robots are lifted, and so is what lies flat on a
/// platform.
pub proof fn lemma_tile_and_lift(d: Draft, f: Fit, hi_ok: bool, grid: usize, covered: Seq<bool>)
    requires
        1 <= grid <= 2,
        f.tx < grid,
        f.ty < grid,
        covered.len() == 5,
    ensures
        !hi_ok ==> tile_of(d, f, hi_ok, grid, covered) is None,
        d matches Draft::Group(g, a) ==> {
            &&& lies_flat(d) == (a == GroupAnchor::Flat)
            &&& (lift_of(d) == Lift::Robot) == (g.fly && a != GroupAnchor::Flat)
            &&& lift_of(d) != Lift::Platform
            &&& hi_ok ==> (tile_of(d, f, hi_ok, grid, covered) == Some(4usize) <==> f.in_live && a
                != GroupAnchor::Flat)
            &&& hi_ok && (!f.in_live || a == GroupAnchor::Flat) ==> tile_of(d, f, hi_ok, grid, covered) is None
        },
        d matches Draft::Part(r, vb, uc) ==> {
            &&& lies_flat(d) == r.flat
            &&& (lift_of(d) == Lift::Platform) == r.elevated_flat
            &&& lift_of(d) != Lift::Robot
            &&& hi_ok && r.special ==> tile_of(d, f, hi_ok, grid, covered) == if f.in_live {
                Some(4usize)
            } else {
                None
            }
            &&& hi_ok && !r.special && grid == 1 ==> tile_of(d, f, hi_ok, grid, covered) == if covered[0] {
                Some(0usize)
            } else {
                None
            }
            &&& hi_ok && !r.special && grid == 2 ==> {
                let t = 2 * f.ty + f.tx;
                tile_of(d, f, hi_ok, grid, covered) == if covered[t] {
                    Some(t as usize)
                } else {
                    None
                }
            }
        },
{
    assert(f.ty * grid + f.tx == if grid == 1 {
        0
    } else {
        2 * f.ty + f.tx
    }) by (nonlinear_arith)
        requires
            1 <= grid <= 2,
            0 <= f.tx < grid,
            0 <= f.ty < grid,
    ;
}

/// How a moving entity is anchored does not depend on who asks.
pub proof fn lemma_same_anchor(g: &SpecialGroup, first_person: bool, view_known: bool, r: GroupAnchor)
    requires
        call_ensures(group_anchor, (g, first_person, view_known), r),
    ensures
        anchor_kind(*g, first_person, view_known) == r,
{
}

proof fn lemma_group_drafted(s: Seq<PartRect>, first_person: bool, view_known: bool, n: int, k: int)
    requires
        0 <= k < n <= serials_of(s).len(),
    ensures
        ({
            let g = union_of(s, serials_of(s)[k])->0;
            let a = anchor_kind(g, first_person, view_known);
            a != GroupAnchor::Hidden ==> group_drafts(s, first_person, view_known, n).contains(
                Draft::Group(g, a),
            )
        }),
    decreases n,
{
    let g = union_of(s, serials_of(s)[k])->0;
    let a = anchor_kind(g, first_person, view_known);
    let b = group_drafts(s, first_person, view_known, n - 1);
    let d = group_drafts(s, first_person, view_known, n);
    if a != GroupAnchor::Hidden {
        if k < n - 1 {
            lemma_group_drafted(s, first_person, view_known, n - 1, k);
            let i = choose|i: int| 0 <= i < b.len() && b[i] == Draft::Group(g, a);
            assert(d[i] == Draft::Group(g, a));
        } else {
            assert(d[b.len() as int] == Draft::Group(g, a));
        }
    }
}

/// What becomes of one batch. Nothing of one that is of another view. Every part that
/// stands becomes a draft, anchored with its building. Of a fresh one every moving
/// entity becomes one draft, unless it is hidden; of one that is not fresh none does.
pub proof fn lemma_drafts_of_a_batch(b: Batch, first_person: bool, view_known: bool, i: int)
    ensures
        ({
            let s = b.rects@;
            let d = drafts_of(b, first_person, view_known);
            let st = s.filter(|r: PartRect| !(r.special && r.grp != 0));
            &&& !b.usable ==> d.len() == 0
            &&& b.usable && 0 <= i < st.len() ==> d.contains(
                Draft::Part(st[i], anchor_of(st, i).0, anchor_of(st, i).1),
            )
            &&& b.usable && !b.fresh ==> d.len() == st.len()
            &&& b.usable && b.fresh && 0 <= i < serials_of(s).len() ==> {
                let g = union_of(s, serials_of(s)[i])->0;
                let a = anchor_kind(g, first_person, view_known);
                a != GroupAnchor::Hidden ==> d.contains(Draft::Group(g, a))
            }
        }),
{
    let s = b.rects@;
    let d = drafts_of(b, first_person, view_known);
    let f = |r: PartRect| !(r.special && r.grp != 0);
    let st = s.filter(f);
    let g = |r: PartRect| !crate::renderer::grouped(r);
    assert(f =~= g);
    assert(st == standing(s));
    let n = serials_of(s).len() as int;
    let gs = group_drafts(s, first_person, view_known, n);
    if b.usable && 0 <= i < st.len() {
        let it = Draft::Part(st[i], anchor_of(st, i).0, anchor_of(st, i).1);
        assert(part_drafts(st)[i] == it);
        if b.fresh {
            assert(d[gs.len() + i] == it);
        } else {
            assert(d[i] == it);
        }
    }
    if b.usable && b.fresh && 0 <= i < n {
        lemma_group_drafted(s, first_person, view_known, n, i);
        let u = union_of(s, serials_of(s)[i])->0;
        let it = Draft::Group(u, anchor_kind(u, first_person, view_known));
        if gs.contains(it) {
            let k = choose|k: int| 0 <= k < gs.len() && gs[k] == it;
            assert(d[k] == it);
        }
    }
}

/// The drafts of a frame are those of its batches, one batch behind the other.
pub proof fn lemma_drafts_add_up(b: Seq<Batch>, first_person: bool, view_known: bool)
    requires
        b.len() > 0,
    ensures
        all_drafts(b, first_person, view_known, b.len() as int) == drafts_of(b[0], first_person, view_known)
            + all_drafts(b.skip(1), first_person, view_known, b.len() - 1),
{
    lemma_drafts_shift(b, first_person, view_known, b.len() - 1);
}

proof fn lemma_drafts_shift(b: Seq<Batch>, first_person: bool, view_known: bool, n: int)
    requires
        0 <= n < b.len(),
    ensures
        all_drafts(b, first_person, view_known, n + 1) == drafts_of(b[0], first_person, view_known) + all_drafts(
            b.skip(1),
            first_person,
            view_known,
            n,
        ),
    decreases n,
{
    let h = drafts_of(b[0], first_person, view_known);
    if n > 0 {
        lemma_drafts_shift(b, first_person, view_known, n - 1);
        assert(b.skip(1)[n - 1] == b[n]);
        let t = all_drafts(b.skip(1), first_person, view_known, n - 1);
        let l = drafts_of(b[n], first_person, view_known);
        assert((h + t) + l =~= h + (t + l));
    } else {
        assert(all_drafts(b, first_person, view_known, 0) + h =~= h);
        assert(h + all_drafts(b.skip(1), first_person, view_known, 0) =~= h);
        assert(all_drafts(b, first_person, view_known, 1) == all_drafts(b, first_person, view_known, 0) + h);
    }
}

/// The quads of a frame are drawn from the farthest to the nearest, and those of one
/// depth as their drafts were recorded.
pub proof fn lemma_quads_by_depth(drafts: &Vec<Draft>, fits: &Vec<Fit>, hi_ok: bool, grid: usize, covered: &Vec<bool>, r: Vec<Quad>, a: int, b: int)
    requires
        fits@.len() == drafts@.len(),
        1 <= grid <= 2,
        covered@.len() == 5,
        forall|i: int| 0 <= i < fits@.len() ==> (#[trigger] fits@[i]).tx < grid && fits@[i].ty < grid,
        call_ensures(build_billboards, (drafts, fits, hi_ok, grid, covered), r),
        0 <= a < b < r@.len(),
    ensures
        r@[a].draft < drafts@.len(),
        r@[a].draft != r@[b].draft,
        fits@[r@[a].draft as int].depth >= fits@[r@[b].draft as int].depth,
        fits@[r@[a].draft as int].depth == fits@[r@[b].draft as int].depth ==> r@[a].draft < r@[b].draft,
        r@.len() <= 65536,
{
    let n = drafts@.len() as int;
    assert(drafts.len() == drafts@.len());
    let q = quads_of(drafts@, fits@, hi_ok, grid, covered@, n);
    let depths = depths_of(q, fits@);
    let keys = far_first(depths);
    let all = choose|all: Seq<usize>| #[trigger] stable_order(keys, all) && r@ == in_order(q, all);
    lemma_quads_fit(drafts@, fits@, hi_ok, grid, covered@, n);
    let cut: int = if all.len() > MAX_BILLBOARDS {
        all.len() - MAX_BILLBOARDS
    } else {
        0
    };
    assert(keys.len() == q.len());
    let x = all[cut + a];
    let y = all[cut + b];
    assert(r@[a] == q[x as int] && r@[b] == q[y as int]);
    assert(crate::order::before(keys, x, y));
    assert(keys[x as int] == -depths[x as int] && keys[y as int] == -depths[y as int]);
    assert(x < q.len() && y < q.len() && x != y);
    if x < y {
        assert(q[x as int].draft < q[y as int].draft);
    } else {
        assert(q[y as int].draft < q[x as int].draft);
    }
}

/// Every draft that shows is drawn, where there are no more than 65536.
pub proof fn lemma_every_draft_is_drawn(drafts: &Vec<Draft>, fits: &Vec<Fit>, hi_ok: bool, grid: usize, covered: &Vec<bool>, r: Vec<Quad>, k: int)
    requires
        fits@.len() == drafts@.len(),
        drafts@.len() <= 65536,
        1 <= grid <= 2,
        covered@.len() == 5,
        forall|i: int| 0 <= i < fits@.len() ==> (#[trigger] fits@[i]).tx < grid && fits@[i].ty < grid,
        call_ensures(build_billboards, (drafts, fits, hi_ok, grid, covered), r),
        0 <= k < drafts@.len(),
        shows(drafts@[k], fits@[k]),
    ensures
        exists|i: int| 0 <= i < r@.len() && (#[trigger] r@[i]).draft == k,
{
    let n = drafts@.len() as int;
    assert(drafts.len() == drafts@.len());
    let q = quads_of(drafts@, fits@, hi_ok, grid, covered@, n);
    let keys = far_first(depths_of(q, fits@));
    let all = choose|all: Seq<usize>| #[trigger] stable_order(keys, all) && r@ == in_order(q, all);
    lemma_quads_below(drafts@, fits@, hi_ok, grid, covered@, n);
    lemma_fitting_drawn(drafts@, fits@, hi_ok, grid, covered@, n, k);
    let i = choose|i: int| 0 <= i < q.len() && (#[trigger] q[i]).draft == k;
    assert(keys.len() == q.len());
    assert(all.len() == q.len());
    crate::order::lemma_order_covers(all, q.len() as int, i as usize);
    let j = choose|j: int| 0 <= j < all.len() && all[j] == i;
    assert(r@[j] == q[i]);
}

proof fn lemma_quads_below(d: Seq<Draft>, f: Seq<Fit>, hi_ok: bool, grid: usize, covered: Seq<bool>, n: int)
    requires
        0 <= n,
    ensures
        quads_of(d, f, hi_ok, grid, covered, n).len() <= n,
    decreases n,
{
    if n > 0 {
        lemma_quads_below(d, f, hi_ok, grid, covered, n - 1);
    }
}

} // verus!
