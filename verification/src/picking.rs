//! Picking in the turned view: whether cursor positions have to be mapped back
//! to the plain view.

use vstd::prelude::*;

verus! {

#[derive(Clone, Copy, PartialEq, Eq, Structural, Debug)]
pub struct Picking {
    /// A transform was published at some time.
    pub known: bool,
    /// The view is turned.
    pub active: bool,
}

impl Picking {
    pub fn new() -> (r: Picking)
        ensures
            r == (Picking { known: false, active: false }),
    {
        Picking { known: false, active: false }
    }
}

/// Notes that this frame's transform was published.
pub fn set_transform(p: &mut Picking)
    ensures
        *final(p) == (Picking { known: true, active: true }),
{
    p.known = true;
    p.active = true;
}

/// Back to the plain view.
pub fn clear(p: &mut Picking)
    ensures
        *final(p) == (Picking { active: false, ..*old(p) }),
{
    p.active = false;
}

/// Whether a cursor position is mapped back: the view is turned, its transform
/// is known, and the ray through the cursor meets the ground.
pub fn unwarps(p: &Picking, hits_ground: bool) -> (r: bool)
    ensures
        r == (p.active && p.known && hits_ground),
{
    p.active && p.known && hits_ground
}

} // verus!
