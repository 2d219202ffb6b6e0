//! What is near enough to the view to be drawn.

use crate::frame::ViewRect;
use crate::hooks::MapPos;
use vstd::prelude::*;

verus! {

/// The part of the map that is near the view, in fifths of a 256th of a tile.
#[derive(Clone, Copy, PartialEq, Eq, Structural, Debug)]
pub struct ViewCull {
    /// Without a view, everything is near it.
    pub active: bool,
    pub x0: i64,
    pub x1: i64,
    pub y0: i64,
    pub y1: i64,
}

/// Half a tile, in 256ths of one.
pub const HALF_TILE: i32 = 128;

/// Six tiles, in fifths of a 256th of a tile.
pub const SIX_TILES: i64 = 7680;

impl ViewCull {
    /// The part of the map that is near a view: the margin is a fifth of the span
    /// and six tiles.
    pub open spec fn around(v: ViewRect) -> ViewCull {
        ViewCull {
            active: v.span_x > 128 && v.span_y > 128,
            x0: (v.left * 5 - v.span_x - 7680) as i64,
            x1: (v.left * 5 + v.span_x * 6 + 7680) as i64,
            y0: (v.top * 5 - v.span_y - 7680) as i64,
            y1: (v.top * 5 + v.span_y * 6 + 7680) as i64,
        }
    }

    pub fn new(v: &ViewRect) -> (r: ViewCull)
        ensures
            r == ViewCull::around(*v),
    {
        let l: i64 = v.left as i64 * 5;
        let t: i64 = v.top as i64 * 5;
        let sx: i64 = v.span_x as i64;
        let sy: i64 = v.span_y as i64;
        ViewCull {
            active: v.span_x > HALF_TILE && v.span_y > HALF_TILE,
            x0: l - sx - SIX_TILES,
            x1: l + sx * 6 + SIX_TILES,
            y0: t - sy - SIX_TILES,
            y1: t + sy * 6 + SIX_TILES,
        }
    }

    /// The position is near the view.
    pub open spec fn holds(self, p: MapPos) -> bool {
        !self.active || (self.x0 < p.x * 5 < self.x1 && self.y0 < p.y * 5 < self.y1)
    }

    pub fn contains(&self, p: MapPos) -> (r: bool)
        ensures
            r == self.holds(p),
    {
        let x: i64 = p.x as i64 * 5;
        let y: i64 = p.y as i64 * 5;
        !self.active || (x > self.x0 && x < self.x1 && y > self.y0 && y < self.y1)
    }
}

/// What is in the view is near it.
pub proof fn lemma_view_is_near(v: ViewRect, p: MapPos)
    requires
        v.left <= p.x <= v.left + v.span_x,
        v.top <= p.y <= v.top + v.span_y,
        0 <= v.span_x,
        0 <= v.span_y,
    ensures
        ViewCull::around(v).holds(p),
{
}

/// A place is near a view where it lies outside of it by less than a fifth of its span
/// and six tiles, on either axis; without a view of more than half a tile every place
/// is.
pub proof fn lemma_what_is_near(v: &ViewRect, c: ViewCull, p: MapPos, r: bool)
    requires
        call_ensures(ViewCull::new, (v,), c),
        call_ensures(ViewCull::contains, (&c, p), r),
    ensures
        v.span_x <= 128 || v.span_y <= 128 ==> r,
        v.span_x > 128 && v.span_y > 128 ==> (r <==> {
            &&& 5 * (v.left - p.x) < v.span_x + 7680
            &&& 5 * (p.x - v.left - v.span_x) < v.span_x + 7680
            &&& 5 * (v.top - p.y) < v.span_y + 7680
            &&& 5 * (p.y - v.top - v.span_y) < v.span_y + 7680
        }),
{
}

} // verus!
