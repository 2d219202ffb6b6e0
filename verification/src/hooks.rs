//! What the hooks share: map positions, and the order of installation.

use vstd::prelude::*;

verus! {

/// A position on the map, in 256ths of a tile.
#[derive(Clone, Copy, PartialEq, Eq, Structural, Debug)]
pub struct MapPos {
    pub x: i32,
    pub y: i32,
}

/// 32 bits as a signed number.
pub open spec fn signed32(n: int) -> int {
    if n >= 0x8000_0000 {
        n - 0x1_0000_0000
    } else {
        n
    }
}

/// A signed number as 32 bits.
pub open spec fn unsigned32(n: int) -> int {
    if n < 0 {
        n + 0x1_0000_0000
    } else {
        n
    }
}

/// The position that a register holds: x in the low half, y in the high half.
pub open spec fn unpacked(pos: u64) -> MapPos {
    MapPos {
        x: signed32((pos % 0x1_0000_0000) as int) as i32,
        y: signed32((pos / 0x1_0000_0000) as int) as i32,
    }
}

/// The register that holds a position.
pub open spec fn packed(x: i32, y: i32) -> int {
    unsigned32(y as int) * 0x1_0000_0000 + unsigned32(x as int)
}

fn to_signed(n: u64) -> (r: i32)
    requires
        n < 0x1_0000_0000,
    ensures
        r == signed32(n as int),
{
    if n >= 0x8000_0000 {
        (n as i64 - 0x1_0000_0000) as i32
    } else {
        n as i32
    }
}

fn to_unsigned(n: i32) -> (r: u64)
    ensures
        r == unsigned32(n as int),
        r < 0x1_0000_0000,
{
    if n < 0 {
        (n as i64 + 0x1_0000_0000) as u64
    } else {
        n as u64
    }
}

impl MapPos {
    /// The position that a register holds.
    pub fn tiles_packed(pos: u64) -> (r: MapPos)
        ensures
            r == unpacked(pos),
    {
        MapPos { x: to_signed(pos % 0x1_0000_0000), y: to_signed(pos / 0x1_0000_0000) }
    }
}

/// Puts a position into a register.
pub fn pack(x: i32, y: i32) -> (r: u64)
    ensures
        r == packed(x, y),
{
    to_unsigned(y) * 0x1_0000_0000 + to_unsigned(x)
}

/// The pixel that is handed to the game: the one under the cursor, or the one
/// that shows the same place in the plain view.
pub fn hooked_get_map_position(pixel: u64, unwarped: Option<(i32, i32)>) -> (r: u64)
    ensures
        r == match unwarped {
            Some(p) => packed(p.0, p.1),
            None => pixel as int,
        },
{
    match unwarped {
        Some(p) => pack(p.0, p.1),
        None => pixel,
    }
}

/// What is packed comes back, and what is unpacked goes back.
pub proof fn lemma_pack_unpack(x: i32, y: i32, pos: u64)
    ensures
        0 <= packed(x, y) <= u64::MAX,
        unpacked(packed(x, y) as u64) == (MapPos { x, y }),
        packed(unpacked(pos).x, unpacked(pos).y) == pos,
{
    let u = unsigned32(y as int);
    let v = unsigned32(x as int);
    assert(0 <= u < 0x1_0000_0000 && 0 <= v < 0x1_0000_0000);
    assert((u * 0x1_0000_0000 + v) / 0x1_0000_0000 == u);
    assert((u * 0x1_0000_0000 + v) % 0x1_0000_0000 == v);
    assert(pos == (pos / 0x1_0000_0000) * 0x1_0000_0000 + pos % 0x1_0000_0000);
}

/// The groups of hooks, in the order in which they are installed.
#[derive(Clone, Copy, PartialEq, Eq, Structural, Debug)]
pub enum InstallStep {
    Renderer,
    FrameEarly,
    Input,
    Actors,
    FrameParams,
    Sprites,
    Rotation,
    Directional,
    Sky,
    Machines,
    Done,
    Failed,
}

/// Which of the two mods is installed: the one that stands sprites up, or the
/// one that replaces them by models.
#[derive(Clone, Copy, PartialEq, Eq, Structural, Debug)]
pub enum Flavor {
    Billboards,
    Models,
}

/// The step that follows a step that went well.
pub open spec fn step_after(flavor: Flavor, step: InstallStep) -> InstallStep {
    match (flavor, step) {
        (_, InstallStep::Renderer) => InstallStep::FrameEarly,
        (_, InstallStep::FrameEarly) => InstallStep::Input,
        (Flavor::Billboards, InstallStep::Input) => InstallStep::Actors,
        (Flavor::Billboards, InstallStep::Actors) => InstallStep::FrameParams,
        (Flavor::Billboards, InstallStep::FrameParams) => InstallStep::Sprites,
        (Flavor::Billboards, InstallStep::Sprites) => InstallStep::Rotation,
        (Flavor::Billboards, InstallStep::Rotation) => InstallStep::Directional,
        (Flavor::Billboards, InstallStep::Directional) => InstallStep::Sky,
        (Flavor::Models, InstallStep::Input) => InstallStep::FrameParams,
        (Flavor::Models, InstallStep::FrameParams) => InstallStep::Machines,
        (_, InstallStep::Failed) => InstallStep::Failed,
        _ => InstallStep::Done,
    }
}

/// The step that follows, given how the last one went: the first failure ends
/// the installation.
pub fn install(flavor: Flavor, step: InstallStep, ok: bool) -> (r: InstallStep)
    ensures
        r == if !ok && step != InstallStep::Done {
            InstallStep::Failed
        } else {
            step_after(flavor, step)
        },
{
    if !ok && step != InstallStep::Done {
        return InstallStep::Failed;
    }
    match (flavor, step) {
        (_, InstallStep::Renderer) => InstallStep::FrameEarly,
        (_, InstallStep::FrameEarly) => InstallStep::Input,
        (Flavor::Billboards, InstallStep::Input) => InstallStep::Actors,
        (Flavor::Billboards, InstallStep::Actors) => InstallStep::FrameParams,
        (Flavor::Billboards, InstallStep::FrameParams) => InstallStep::Sprites,
        (Flavor::Billboards, InstallStep::Sprites) => InstallStep::Rotation,
        (Flavor::Billboards, InstallStep::Rotation) => InstallStep::Directional,
        (Flavor::Billboards, InstallStep::Directional) => InstallStep::Sky,
        (Flavor::Models, InstallStep::Input) => InstallStep::FrameParams,
        (Flavor::Models, InstallStep::FrameParams) => InstallStep::Machines,
        (_, InstallStep::Failed) => InstallStep::Failed,
        _ => InstallStep::Done,
    }
}

/// The low half of a register is the x of the position that it holds, the high half
/// its y, each as a signed number.
pub proof fn lemma_halves_of_a_position(pos: u64)
    ensures
        pos % 0x1_0000_0000 < 0x8000_0000 ==> unpacked(pos).x == pos % 0x1_0000_0000,
        pos % 0x1_0000_0000 >= 0x8000_0000 ==> unpacked(pos).x == pos % 0x1_0000_0000 - 0x1_0000_0000,
        pos / 0x1_0000_0000 < 0x8000_0000 ==> unpacked(pos).y == pos / 0x1_0000_0000,
        pos / 0x1_0000_0000 >= 0x8000_0000 ==> unpacked(pos).y == pos / 0x1_0000_0000 - 0x1_0000_0000,
{
}

/// The game is handed the pixel that shows the place under the cursor in the plain
/// view, with its x in the low half, and the pixel itself where there is none.
pub proof fn lemma_pixel_handed_on(pixel: u64, unwarped: Option<(i32, i32)>, r: u64)
    requires
        call_ensures(hooked_get_map_position, (pixel, unwarped), r),
    ensures
        unwarped is None ==> r == pixel,
        unwarped matches Some(p) ==> unpacked(r) == (MapPos { x: p.0, y: p.1 }),
{
    if unwarped is Some {
        let p = unwarped->0;
        lemma_pack_unpack(p.0, p.1, pixel);
    }
}

/// The steps of the installation, in their order: both mods hook the frame and the
/// input, and each then what it needs. Whatever goes wrong ends it for good.
pub proof fn lemma_installation(flavor: Flavor, step: InstallStep, ok: bool, r: InstallStep)
    requires
        call_ensures(install, (flavor, step, ok), r),
    ensures
        !ok && step != InstallStep::Done ==> r == InstallStep::Failed,
        step == InstallStep::Failed ==> r == InstallStep::Failed,
        step == InstallStep::Done ==> r == InstallStep::Done,
        ok && step == InstallStep::Renderer ==> r == InstallStep::FrameEarly,
        ok && step == InstallStep::FrameEarly ==> r == InstallStep::Input,
        ok && step == InstallStep::Input ==> r == (match flavor {
            Flavor::Billboards => InstallStep::Actors,
            Flavor::Models => InstallStep::FrameParams,
        }),
        ok && step == InstallStep::FrameParams ==> r == (match flavor {
            Flavor::Billboards => InstallStep::Sprites,
            Flavor::Models => InstallStep::Machines,
        }),
        ok && step == InstallStep::Machines ==> r == InstallStep::Done,
        ok && flavor == Flavor::Billboards ==> {
            &&& step == InstallStep::Actors ==> r == InstallStep::FrameParams
            &&& step == InstallStep::Sprites ==> r == InstallStep::Rotation
            &&& step == InstallStep::Rotation ==> r == InstallStep::Directional
            &&& step == InstallStep::Directional ==> r == InstallStep::Sky
            &&& step == InstallStep::Sky ==> r == InstallStep::Done
        },
{
}

} // verus!
