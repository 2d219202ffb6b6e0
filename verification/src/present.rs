//! What happens when the game has drawn the world, before it draws its menus.

use crate::frame::ViewRect;
use vstd::prelude::*;

verus! {

/// One tile, and twice the largest span of the view, in 256ths of a tile.
pub const ONE_TILE: i32 = 256;

pub const MAX_MODEL_SPAN: i32 = 153600;

/// Whether models are drawn in a view: not in one that is no view of the world.
pub fn draws_models(view: &ViewRect) -> (r: bool)
    ensures
        r == (256 < view.span_x < 600 * 256),
{
    view.span_x > ONE_TILE && view.span_x < MAX_MODEL_SPAN
}

/// The view is not the plain one. Angles are in tenths of a degree.
pub open spec fn view_turned(first_person: bool, yaw: int, pitch: int, zoomed: bool) -> bool {
    first_person || yaw > 10 || yaw < -10 || pitch > 910 || pitch < 890 || zoomed
}

/// What is drawn onto the world.
#[derive(Clone, Copy, PartialEq, Eq, Structural, Debug)]
pub struct WorldPasses {
    /// The view is tilted; otherwise the cursor is where it seems to be.
    pub warp: bool,
    pub models: bool,
}

/// What is drawn onto the world; nothing before the device is known, or where
/// there is no target.
pub fn on_after_world_render(
    initialized: bool,
    has_target: bool,
    first_person: bool,
    yaw: i32,
    pitch: i32,
    zoomed: bool,
    has_models: bool,
    view: &ViewRect,
) -> (r: Option<WorldPasses>)
    ensures
        r == if initialized && has_target {
            Some(
                WorldPasses {
                    warp: view_turned(first_person, yaw as int, pitch as int, zoomed),
                    models: has_models && 256 < view.span_x < 600 * 256,
                },
            )
        } else {
            None
        },
{
    if !initialized || !has_target {
        return None;
    }
    let warp: bool = first_person || yaw > 10 || yaw < -10 || pitch > 910 || pitch < 890 || zoomed;
    Some(WorldPasses { warp, models: has_models && draws_models(view) })
}

/// The size of the window: that of the target where it is not known.
pub fn window_size(base: (u32, u32), target: (u32, u32)) -> (r: (u32, u32))
    ensures
        r == if base.0 == 0 || base.1 == 0 {
            target
        } else {
            base
        },
{
    if base.0 == 0 || base.1 == 0 {
        target
    } else {
        base
    }
}

/// The view is warped in first person, where it is turned by more than a degree either
/// way, or zoomed out; models are drawn where there are any and the view is from one to
/// 600 tiles wide. Nothing is drawn before the device is known or without a target.
pub proof fn lemma_world_passes(
    initialized: bool,
    has_target: bool,
    first_person: bool,
    yaw: i32,
    pitch: i32,
    zoomed: bool,
    has_models: bool,
    view: &ViewRect,
    r: Option<WorldPasses>,
)
    requires
        call_ensures(
            on_after_world_render,
            (initialized, has_target, first_person, yaw, pitch, zoomed, has_models, view),
            r,
        ),
    ensures
        r is Some <==> initialized && has_target,
        r matches Some(p) ==> (!p.warp <==> !first_person && !zoomed && -10 <= yaw <= 10 && 890 <= pitch <= 910),
        r matches Some(p) ==> (p.models <==> has_models && view.span_x > 256 && view.span_x < 153_600),
{
}

} // verus!
