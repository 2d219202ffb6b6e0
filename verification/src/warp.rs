//! The passes that draw the tilted view, and what they draw.

use crate::renderer::MAX_BILLBOARDS;
use vstd::prelude::*;

verus! {

/// A texture that the frame is copied to.
#[derive(Clone, Copy, PartialEq, Eq, Structural, Debug)]
pub struct Staging {
    pub width: u32,
    pub height: u32,
    pub format: u32,
}

/// Whether the texture can be used for a frame; otherwise it is made anew.
pub fn staging_fits(s: &Staging, width: u32, height: u32, format: u32) -> (r: bool)
    ensures
        r == (*s == Staging { width, height, format }),
{
    s.width == width && s.height == height && s.format == format
}

/// Makes the texture fit a frame. `made` says whether a new one could be made,
/// where that is needed. The result says whether the texture fits; where it does
/// not, the view is not drawn and the old one stays.
pub fn ensure_staging(s: &mut Staging, width: u32, height: u32, format: u32, made: bool) -> (r: bool)
    ensures
        r == (*old(s) == (Staging { width, height, format }) || made),
        *final(s) == if r {
            Staging { width, height, format }
        } else {
            *old(s)
        },
{
    if staging_fits(s, width, height, format) {
        return true;
    }
    if made {
        *s = Staging { width, height, format };
    }
    made
}

/// The layers that were captured.
#[derive(Clone, Copy, PartialEq, Eq, Structural, Debug)]
pub struct Layers {
    pub ground_hi: bool,
    pub belt: bool,
    pub elevated: bool,
    /// The deck of elevated rails has a height.
    pub elevated_raised: bool,
    pub object: bool,
    pub object_hi: bool,
    pub wire: bool,
    /// The plane of wires has a height.
    pub wire_raised: bool,
    /// Some tile was captured at a higher resolution.
    pub any_tile: bool,
}

/// A pass of the tilted view.
#[derive(Clone, Copy, PartialEq, Eq, Structural, Debug)]
pub enum WarpPass {
    /// The ground, with its tiles of a higher resolution or without.
    Ground(bool),
    /// A slice of the belts, of three.
    Belt(u8),
    /// A slice of the deck of elevated rails, of three.
    Deck(u8),
    /// So many standing quads, with tiles of a higher resolution or without.
    Billboards(usize, bool),
    /// The objects, flat on the ground.
    ObjectsFlat,
    Wire,
}

/// How many quads are drawn.
pub open spec fn quads_drawn(n: usize) -> usize {
    if n < MAX_BILLBOARDS {
        n
    } else {
        MAX_BILLBOARDS
    }
}

/// The pass of the objects: standing quads, or flat where nothing was recorded.
pub open spec fn object_pass(l: Layers, n: usize) -> WarpPass {
    if quads_drawn(n) > 0 {
        WarpPass::Billboards(quads_drawn(n), l.object_hi && l.any_tile)
    } else {
        WarpPass::ObjectsFlat
    }
}

/// The passes of the tilted view, from the ground up; wires come last so that
/// nothing hides them.
pub open spec fn passes_of(l: Layers, n: usize) -> Seq<WarpPass> {
    seq![WarpPass::Ground(l.ground_hi && l.any_tile)] + (if l.belt {
        seq![WarpPass::Belt(1), WarpPass::Belt(2), WarpPass::Belt(3)]
    } else {
        Seq::empty()
    }) + (if l.elevated && l.elevated_raised {
        seq![WarpPass::Deck(1), WarpPass::Deck(2), WarpPass::Deck(3)]
    } else {
        Seq::empty()
    }) + (if l.object {
        seq![object_pass(l, n)]
    } else {
        Seq::empty()
    }) + (if l.wire && l.wire_raised {
        seq![WarpPass::Wire]
    } else {
        Seq::empty()
    })
}

/// The passes of the tilted view.
pub fn warp_in_place(l: &Layers, billboards: usize) -> (r: Vec<WarpPass>)
    ensures
        r@ == passes_of(*l, billboards),
{
    let mut out: Vec<WarpPass> = Vec::new();
    out.push(WarpPass::Ground(l.ground_hi && l.any_tile));
    if l.belt {
        out.push(WarpPass::Belt(1));
        out.push(WarpPass::Belt(2));
        out.push(WarpPass::Belt(3));
    }
    if l.elevated && l.elevated_raised {
        out.push(WarpPass::Deck(1));
        out.push(WarpPass::Deck(2));
        out.push(WarpPass::Deck(3));
    }
    if l.object {
        let n: usize = if billboards < MAX_BILLBOARDS {
            billboards
        } else {
            MAX_BILLBOARDS
        };
        if n > 0 {
            out.push(WarpPass::Billboards(n, l.object_hi && l.any_tile));
        } else {
            out.push(WarpPass::ObjectsFlat);
        }
    }
    if l.wire && l.wire_raised {
        out.push(WarpPass::Wire);
    }
    assert(out@ =~= passes_of(*l, billboards));
    out
}

/// The ground is drawn first and once, wires last, and objects that were
/// captured are drawn one way or the other.
pub proof fn lemma_passes(l: Layers, n: usize)
    ensures
        passes_of(l, n)[0] == WarpPass::Ground(l.ground_hi && l.any_tile),
        forall|i: int|
            0 < i < passes_of(l, n).len() ==> !(#[trigger] passes_of(l, n)[i] is Ground),
        forall|i: int|
            0 <= i < passes_of(l, n).len() - 1 ==> !(#[trigger] passes_of(l, n)[i] is Wire),
        l.object ==> passes_of(l, n).contains(object_pass(l, n)),
{
    if l.object {
        let s = passes_of(l, n);
        let i = 1 + (if l.belt {
            3int
        } else {
            0
        }) + (if l.elevated && l.elevated_raised {
            3int
        } else {
            0
        });
        assert(s[i] == object_pass(l, n));
    }
}

/// A corner of a quad.
#[derive(Clone, Copy, PartialEq, Eq, Structural, Debug)]
pub struct Corner {
    pub right: bool,
    pub top: bool,
}

/// The vertices of a quad.
pub const QUAD_VERTICES: usize = 6;

/// The corner that each of the six vertices of a quad stands at: two triangles.
pub open spec fn corner_at(i: int) -> Corner {
    Corner { right: i == 1 || i == 4 || i == 5, top: i == 2 || i == 3 || i == 5 }
}

/// The corner that a vertex of a quad stands at.
pub fn quad_corner(i: usize) -> (r: Corner)
    requires
        i < QUAD_VERTICES,
    ensures
        r == corner_at(i as int),
{
    Corner { right: i == 1 || i == 4 || i == 5, top: i == 2 || i == 3 || i == 5 }
}

/// The two triangles of a quad share a side and together have all its corners.
pub proof fn lemma_quad()
    ensures
        corner_at(1) == corner_at(4),
        corner_at(2) == corner_at(3),
        corner_at(0) == (Corner { right: false, top: false }),
        corner_at(1) == (Corner { right: true, top: false }),
        corner_at(2) == (Corner { right: false, top: true }),
        corner_at(5) == (Corner { right: true, top: true }),
{
}

/// What the tilted view is made of. The ground is always drawn; belts, and a deck that
/// has a height, in three slices from the lowest up; objects as standing quads where
/// some were recorded, no more than 65536 of them, and flat otherwise; and wires that
/// have a height. A layer that was not captured is left out.
pub proof fn lemma_what_the_view_is_made_of(l: &Layers, n: usize, r: Vec<WarpPass>)
    requires
        call_ensures(warp_in_place, (l, n), r),
    ensures
        ({
            let s = r@;
            let belts: int = if l.belt {
                3
            } else {
                0
            };
            let decks: int = if l.elevated && l.elevated_raised {
                3
            } else {
                0
            };
            let objects: int = if l.object {
                1
            } else {
                0
            };
            let wires: int = if l.wire && l.wire_raised {
                1
            } else {
                0
            };
            let o = s[1 + belts + decks];
            &&& s.len() == 1 + belts + decks + objects + wires
            &&& s[0] == WarpPass::Ground(l.ground_hi && l.any_tile)
            &&& l.belt ==> s[1] == WarpPass::Belt(1) && s[2] == WarpPass::Belt(2) && s[3] == WarpPass::Belt(3)
            &&& decks == 3 ==> s[1 + belts] == WarpPass::Deck(1) && s[2 + belts] == WarpPass::Deck(2) && s[3 + belts]
                == WarpPass::Deck(3)
            &&& l.object && n == 0 ==> o == WarpPass::ObjectsFlat
            &&& l.object && 0 < n <= 65536 ==> o == WarpPass::Billboards(n, l.object_hi && l.any_tile)
            &&& l.object && n > 65536 ==> o == WarpPass::Billboards(65536, l.object_hi && l.any_tile)
            &&& wires == 1 ==> s[s.len() - 1] == WarpPass::Wire
        }),
{
}

} // verus!
