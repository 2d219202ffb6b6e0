//! The game's own getter functions: where they are, and what their results
//! mean.
//!
//! A getter hands its result back through a buffer or in a register, and which
//! of the two it is shows only afterwards. The buffer is therefore filled with
//! something that no result can be, and the buffer is believed first.

use crate::hooks::{unpacked, MapPos};
use crate::mem::{found_views, scan_proto_strings, strings_in, try_read_off, Memory};
use crate::idmap::IdMap;
use crate::models::{
    copy_model, model_opt, resolve, resolved, Disk, DiskSpec, EntityModel, EntityModelSpec, Registry,
    Stock,
};
use crate::symbols::{address_of, GameFn, SymbolMap};
use vstd::prelude::*;
use vstd::string::*;

verus! {

/// The getters that are called, as functions of the game.
#[derive(Clone, Copy, Debug)]
pub struct GetterFns {
    pub prototype: GameFn,
    pub position: GameFn,
    pub surface: GameFn,
    pub turret_orientation: GameFn,
    pub direction: GameFn,
    pub orientation: GameFn,
}

/// The addresses of the getters; 0 stands for one that is not there.
#[derive(Clone, Copy, PartialEq, Eq, Structural, Debug)]
pub struct Getters {
    pub get_prototype: u64,
    pub get_pos: u64,
    pub get_surface: u64,
    pub turret_orient: u64,
    pub base_dir: u64,
    pub base_orient: u64,
}

/// The offsets of all getters can be added to the base.
pub open spec fn offsets_fit(fns: GetterFns, base: int) -> bool {
    &&& base + fns.prototype.rva <= u64::MAX
    &&& base + fns.position.rva <= u64::MAX
    &&& base + fns.surface.rva <= u64::MAX
    &&& base + fns.turret_orientation.rva <= u64::MAX
    &&& base + fns.direction.rva <= u64::MAX
    &&& base + fns.orientation.rva <= u64::MAX
}

/// Looks the getters up.
pub fn install(symbols: &SymbolMap, base: u64, fns: &GetterFns) -> (r: Getters)
    requires
        symbols.wf(),
        offsets_fit(*fns, base as int),
    ensures
        r.get_prototype == address_of(*symbols, base as int, fns.prototype),
        r.get_pos == address_of(*symbols, base as int, fns.position),
        r.get_surface == address_of(*symbols, base as int, fns.surface),
        r.turret_orient == address_of(*symbols, base as int, fns.turret_orientation),
        r.base_dir == address_of(*symbols, base as int, fns.direction),
        r.base_orient == address_of(*symbols, base as int, fns.orientation),
{
    Getters {
        get_prototype: crate::symbols::resolve(symbols, base, &fns.prototype),
        get_pos: crate::symbols::resolve(symbols, base, &fns.position),
        get_surface: crate::symbols::resolve(symbols, base, &fns.surface),
        turret_orient: crate::symbols::resolve(symbols, base, &fns.turret_orientation),
        base_dir: crate::symbols::resolve(symbols, base, &fns.direction),
        base_orient: crate::symbols::resolve(symbols, base, &fns.orientation),
    }
}

/// The direction getter of classes that have none of their own.
pub fn base_dir_addr(g: &Getters) -> (r: u64)
    ensures
        r == g.base_dir,
{
    g.base_dir
}

/// The orientation getter of classes that have none of their own.
pub fn base_orient_addr(g: &Getters) -> (r: u64)
    ensures
        r == g.base_orient,
{
    g.base_orient
}

pub fn turret_orient_addr(g: &Getters) -> (r: u64)
    ensures
        r == g.turret_orient,
{
    g.turret_orient
}

/// Whether a getter can be called: it is there, and so is the entity.
pub fn callable(addr: u64, entity: u64) -> (r: bool)
    ensures
        r == (addr != 0 && entity != 0),
{
    addr != 0 && entity != 0
}

/// The direction that a getter gave, from 0 to 15; 0 where neither the buffer
/// nor the register holds one.
pub open spec fn direction_of(addr: u64, buf: u64, rax: u64) -> int {
    if addr == 0 {
        0
    } else if buf % 256 < 16 {
        (buf % 256) as int
    } else if rax % 256 < 16 {
        (rax % 256) as int
    } else {
        0
    }
}

/// The direction that a getter gave.
pub fn entity_dir(addr: u64, buf: u64, rax: u64) -> (r: u8)
    ensures
        r == direction_of(addr, buf, rax),
        r < 16,
{
    if addr == 0 {
        return 0;
    }
    let b: u8 = (buf % 256) as u8;
    if b < 16 {
        return b;
    }
    let a: u8 = (rax % 256) as u8;
    if a < 16 {
        return a;
    }
    0
}

/// The position that a getter gave, where the getter is there: what the buffer
/// holds, or else the register. A buffer that was not written to holds the
/// smallest number twice.
pub fn entity_pos(addr: u64, buf: MapPos, rax: u64) -> (r: Option<MapPos>)
    ensures
        r == if addr == 0 {
            None
        } else if buf.x != i32::MIN || buf.y != i32::MIN {
            Some(buf)
        } else {
            Some(unpacked(rax))
        },
{
    if addr == 0 {
        return None;
    }
    if buf.x != i32::MIN || buf.y != i32::MIN {
        Some(buf)
    } else {
        Some(MapPos::tiles_packed(rax))
    }
}

/// Where an entity's position stands in it.
pub const ENTITY_POS_FIELD: u64 = 0x50;

/// The position that stands in the entity itself. Unlike the getter this works
/// for entities of every class.
pub fn entity_pos_field(mem: &Memory, entity: u64) -> (r: Option<MapPos>)
    requires
        mem.wf(),
    ensures
        r is Some <==> entity != 0 && mem.can_read(entity + ENTITY_POS_FIELD, 8),
        r matches Some(p) ==> p == unpacked(
            crate::mem::word_at(*mem, entity + ENTITY_POS_FIELD) as u64,
        ),
{
    if entity == 0 {
        return None;
    }
    match try_read_off(mem, entity, ENTITY_POS_FIELD, 8) {
        Some(p) => Some(MapPos::tiles_packed(p)),
        None => None,
    }
}

/// The bits of 1 as a 64-bit float.
pub const ONE_DOUBLE: u64 = 0x3FF0_0000_0000_0000;

/// The bits of -0 as a 64-bit float.
pub const MINUS_ZERO_DOUBLE: u64 = 0x8000_0000_0000_0000;

/// The bits of 1 as a 32-bit float.
pub const ONE_SINGLE: u32 = 0x3F80_0000;

/// The bits of -0 as a 32-bit float.
pub const MINUS_ZERO_SINGLE: u32 = 0x8000_0000;

/// The bits of a 64-bit float from 0 to 1: those of the numbers that are not
/// negative are ordered as the numbers are.
pub open spec fn unit_double(bits: u64) -> bool {
    bits <= ONE_DOUBLE || bits == MINUS_ZERO_DOUBLE
}

/// The bits of a 32-bit float from 0 to 1.
pub open spec fn unit_single(bits: u32) -> bool {
    bits <= ONE_SINGLE || bits == MINUS_ZERO_SINGLE
}

pub fn is_unit_double(bits: u64) -> (r: bool)
    ensures
        r == unit_double(bits),
{
    bits <= ONE_DOUBLE || bits == MINUS_ZERO_DOUBLE
}

pub fn is_unit_single(bits: u32) -> (r: bool)
    ensures
        r == unit_single(bits),
{
    bits <= ONE_SINGLE || bits == MINUS_ZERO_SINGLE
}

/// An orientation, from 0 to 1: the bits of a float of either size, or none.
#[derive(Clone, Copy, PartialEq, Eq, Structural, Debug)]
pub enum Orientation {
    Double(u64),
    Single(u32),
    Zero,
}

/// What a raw result holds: a 32-bit float from 0 to 1 with an empty upper half,
/// or else a 64-bit one, or else a 32-bit one in its low half. With an empty upper
/// half a 64-bit float is 0 or too small to be an orientation.
pub open spec fn orientation_in(raw: u64) -> Option<Orientation> {
    if raw < 0x1_0000_0000 && unit_single(raw as u32) {
        Some(Orientation::Single(raw as u32))
    } else if unit_double(raw) {
        Some(Orientation::Double(raw))
    } else if unit_single((raw % 0x1_0000_0000) as u32) {
        Some(Orientation::Single((raw % 0x1_0000_0000) as u32))
    } else {
        None
    }
}

fn read_orientation(raw: u64) -> (r: Option<Orientation>)
    ensures
        r == orientation_in(raw),
{
    if raw < 0x1_0000_0000 && is_unit_single(raw as u32) {
        return Some(Orientation::Single(raw as u32));
    }
    if is_unit_double(raw) {
        return Some(Orientation::Double(raw));
    }
    let low: u32 = (raw % 0x1_0000_0000) as u32;
    if is_unit_single(low) {
        return Some(Orientation::Single(low));
    }
    None
}

/// The orientation that a getter gave: what the buffer holds, or else the
/// register, or else north.
pub open spec fn decoded(buf: u64, rax: u64) -> Orientation {
    match orientation_in(buf) {
        Some(o) => o,
        None => match orientation_in(rax) {
            Some(o) => o,
            None => Orientation::Zero,
        },
    }
}

/// The orientation that a getter gave.
pub fn decode_orientation(buf: u64, rax: u64) -> (r: Orientation)
    ensures
        r == decoded(buf, rax),
{
    match read_orientation(buf) {
        Some(o) => o,
        None => match read_orientation(rax) {
            Some(o) => o,
            None => Orientation::Zero,
        },
    }
}

/// A getter may give a float of either size, in the buffer or in the register, and
/// the buffer wins: each comes out as itself.
pub proof fn lemma_orientation_found(buf: u64, rax: u64, single: u32, double: u64)
    requires
        unit_single(single),
        unit_double(double),
        double >= 0x1_0000_0000,
    ensures
        decoded(single as u64, rax) == Orientation::Single(single),
        decoded(double, rax) == Orientation::Double(double),
        orientation_in(buf) is None ==> decoded(buf, single as u64) == Orientation::Single(single),
        orientation_in(buf) is None ==> decoded(buf, double) == Orientation::Double(double),
{
}

/// The model of the first string that has one, and what is remembered after the
/// strings were asked for.
pub open spec fn first_model(s: Stock, d: DiskSpec, found: Seq<(u64, Seq<char>)>) -> (
    Option<EntityModelSpec>,
    Stock,
)
    decreases found.len(),
{
    if found.len() == 0 {
        (None, s)
    } else {
        let (m, after) = resolved(s, d, found[0].1);
        if m is Some {
            (m, after)
        } else {
            first_model(after, d, found.drop_first())
        }
    }
}

/// The model of a prototype: its name is the string at the lowest offset that
/// has a model.
pub fn proto_model(reg: &mut Registry, disk: &Disk, mem: &Memory, proto: u64) -> (r: Option<
    EntityModel,
>)
    requires
        old(reg).wf(),
        mem.wf(),
    ensures
        final(reg).wf(),
        (model_opt(r), final(reg).stock()) == first_model(
            old(reg).stock(),
            disk@,
            strings_in(*mem, proto as int, 192),
        ),
{
    let found: Vec<(u64, String)> = scan_proto_strings(mem, proto);
    let ghost all = found_views(found@);
    let ghost start = reg.stock();
    let mut i: usize = 0;
    assert(all.skip(0) =~= all);
    while i < found.len()
        invariant
            reg.wf(),
            start == old(reg).stock(),
            all == strings_in(*mem, proto as int, 192),
            i <= found.len(),
            all == found_views(found@),
            first_model(start, disk@, all) == first_model(reg.stock(), disk@, all.skip(i as int)),
        decreases found.len() - i,
    {
        assert(all.skip(i as int)[0].1 == found@[i as int].1@);
        assert(all.skip(i as int).drop_first() =~= all.skip(i + 1));
        match resolve(reg, disk, found[i].1.as_str()) {
            Some(m) => {
                return Some(m);
            },
            None => {},
        }
        i = i + 1;
    }
    None
}

/// The model of a prototype, which is worked out once.
pub fn model_for_prototype(
    cache: &mut IdMap<Option<EntityModel>>,
    reg: &mut Registry,
    disk: &Disk,
    mem: &Memory,
    proto: u64,
) -> (r: Option<EntityModel>)
    requires
        old(cache).wf(),
        old(reg).wf(),
        mem.wf(),
    ensures
        final(cache).wf(),
        final(reg).wf(),
        proto == 0 ==> r is None && final(cache)@ == old(cache)@ && final(reg).stock() == old(
            reg,
        ).stock(),
        proto != 0 && old(cache)@.contains_key(proto) ==> {
            &&& model_opt(r) == model_opt(old(cache)@[proto])
            &&& final(cache)@ == old(cache)@
            &&& final(reg).stock() == old(reg).stock()
        },
        proto != 0 && !old(cache)@.contains_key(proto) ==> {
            &&& (model_opt(r), final(reg).stock()) == first_model(
                old(reg).stock(),
                disk@,
                strings_in(*mem, proto as int, 192),
            )
            &&& final(cache)@ == old(cache)@.insert(proto, final(cache)@[proto])
            &&& model_opt(final(cache)@[proto]) == model_opt(r)
        },
{
    if proto == 0 {
        return None;
    }
    match cache.get(proto) {
        Some(known) => {
            return match known {
                Some(m) => Some(copy_model(m)),
                None => None,
            };
        },
        None => {},
    }
    let m: Option<EntityModel> = proto_model(reg, disk, mem, proto);
    let kept: Option<EntityModel> = match &m {
        Some(m) => Some(copy_model(m)),
        None => None,
    };
    cache.insert(proto, kept);
    m
}

/// The names that stand on a prototype are tried one after the other: the first that
/// has a model decides, those before it leave what they asked for, and those behind it
/// are not asked.
pub proof fn lemma_names_are_tried(s: Stock, d: DiskSpec, a: Seq<(u64, Seq<char>)>, b: Seq<(u64, Seq<char>)>, off: u64, n: Seq<char>)
    ensures
        first_model(s, d, Seq::empty()) == (None::<EntityModelSpec>, s),
        first_model(s, d, seq![(off, n)]) == resolved(s, d, n),
        first_model(s, d, a).0 is Some ==> first_model(s, d, a + b) == first_model(s, d, a),
        first_model(s, d, a).0 is None ==> first_model(s, d, a + b) == first_model(first_model(s, d, a).1, d, b),
    decreases a.len(),
{
    let one = seq![(off, n)];
    assert(one.drop_first() =~= Seq::<(u64, Seq<char>)>::empty());
    assert(one[0].1 == n);
    if a.len() > 0 {
        assert((a + b)[0] == a[0]);
        assert((a + b).drop_first() =~= a.drop_first() + b);
        lemma_names_are_tried(resolved(s, d, a[0].1).1, d, a.drop_first(), b, off, n);
    } else {
        assert(a + b =~= b);
    }
}

/// A direction is the low byte of the buffer where that is one of sixteen, or else of
/// the register, or else north.
pub proof fn lemma_directions(addr: u64, buf: u64, rax: u64, r: u8)
    requires
        call_ensures(entity_dir, (addr, buf, rax), r),
    ensures
        addr != 0 && buf % 256 < 16 ==> r == buf % 256,
        addr != 0 && buf % 256 >= 16 && rax % 256 < 16 ==> r == rax % 256,
        addr == 0 || (buf % 256 >= 16 && rax % 256 >= 16) ==> r == 0,
{
}

/// Numbers from 0 to 1 are those whose bits are no larger than those of 1, and minus
/// zero.
pub proof fn lemma_unit_numbers(double: u64, single: u32, d: bool, s: bool)
    requires
        call_ensures(is_unit_double, (double,), d),
        call_ensures(is_unit_single, (single,), s),
    ensures
        d <==> double <= 0x3FF0_0000_0000_0000 || double == 0x8000_0000_0000_0000,
        s <==> single <= 0x3F80_0000 || single == 0x8000_0000,
{
}

} // verus!
