//! Following the game's day and night without hooking it: the surface's clock
//! is found in its memory, and the game's own getter is asked.

use crate::getters::{is_unit_double, is_unit_single, unit_double, unit_single, MINUS_ZERO_DOUBLE, ONE_DOUBLE};
use crate::mem::{readable, try_read_off, try_read_u64, word_at, Memory};
use crate::symbols::{address_of, resolve, GameFn, SymbolMap};
use vstd::prelude::*;

verus! {

/// Where a surface holds the pointer to its clock.
pub const SURFACE_DAYTIME: u64 = 0x830;

/// What is known of the clock, and the darkness that was last computed.
#[derive(Clone, Copy, PartialEq, Eq, Structural, Debug)]
pub struct DayNight {
    pub get_darkness: u64,
    pub cached_surface: u64,
    pub cached_daytime: u64,
    /// The bits of a 32-bit float from 0 to 1; nothing before the first sample.
    pub darkness: Option<u32>,
}

/// Looks the darkness getter up.
pub fn init(symbols: &SymbolMap, base: u64, gf: &GameFn) -> (r: DayNight)
    requires
        symbols.wf(),
        base + gf.rva <= u64::MAX,
    ensures
        r == (DayNight {
            get_darkness: address_of(*symbols, base as int, *gf) as u64,
            cached_surface: 0,
            cached_daytime: 0,
            darkness: None,
        }),
{
    DayNight {
        get_darkness: resolve(symbols, base, gf),
        cached_surface: 0,
        cached_daytime: 0,
        darkness: None,
    }
}

/// A key by which floats from 0 to 1 are ordered.
pub open spec fn unit_order(bits: u64) -> u64 {
    if bits == MINUS_ZERO_DOUBLE {
        0
    } else {
        bits
    }
}

/// The float at `a` is from 0 to 1.
pub open spec fn unit_at(mem: Memory, a: int) -> bool {
    unit_double(word_at(mem, a) as u64)
}

/// The float at `a` is no larger than the one at `b`.
pub open spec fn no_later(mem: Memory, a: int, b: int) -> bool {
    unit_order(word_at(mem, a) as u64) <= unit_order(word_at(mem, b) as u64)
}

/// There may be a clock at `p`: its four turning points and its position are
/// from 0 to 1, the turning points are in order, and a day has a sensible number
/// of ticks.
pub open spec fn daytime_at(mem: Memory, p: int) -> bool {
    &&& p != 0
    &&& mem.can_read(p, 0x40)
    &&& unit_at(mem, p)
    &&& unit_at(mem, p + 0x08)
    &&& unit_at(mem, p + 0x10)
    &&& unit_at(mem, p + 0x18)
    &&& unit_at(mem, p + 0x28)
    &&& no_later(mem, p, p + 0x10)
    &&& no_later(mem, p + 0x10, p + 0x18)
    &&& no_later(mem, p + 0x18, p + 0x08)
    &&& 100 <= word_at(mem, p + 0x20) < 1_000_000_000
}

fn order_key(bits: u64) -> (r: u64)
    ensures
        r == unit_order(bits),
{
    if bits == MINUS_ZERO_DOUBLE {
        0
    } else {
        bits
    }
}

fn field(mem: &Memory, p: u64, off: u64) -> (r: u64)
    requires
        mem.wf(),
        mem.can_read(p as int, 0x40),
        off <= 0x38,
        p + 0x40 <= u64::MAX,
    ensures
        r == word_at(*mem, p + off),
{
    proof {
        assert forall|k: int| 0 <= k < 8 implies #[trigger] mem.readable_at(p + off + k) by {
            assert(mem.readable_at(p + (off + k)));
        }
    }
    match try_read_u64(mem, p + off) {
        Some(v) => v,
        None => 0,
    }
}

/// Whether there may be a clock at an address. Every field that the getter
/// reads is checked.
pub fn validate_daytime(mem: &Memory, p: u64) -> (r: bool)
    requires
        mem.wf(),
    ensures
        r == daytime_at(*mem, p as int),
{
    if p == 0 || !readable(mem, p, 0x40) {
        return false;
    }
    proof {
        assert(mem.readable_at(p + 0x3f));
        crate::mem::lemma_readable_fits(mem, p + 0x3f);
    }
    let dusk: u64 = field(mem, p, 0);
    let dawn: u64 = field(mem, p, 0x08);
    let evening: u64 = field(mem, p, 0x10);
    let morning: u64 = field(mem, p, 0x18);
    let position: u64 = field(mem, p, 0x28);
    if !is_unit_double(dusk) || !is_unit_double(dawn) || !is_unit_double(evening) || !is_unit_double(
        morning,
    ) || !is_unit_double(position) {
        return false;
    }
    let ticks: u64 = field(mem, p, 0x20);
    order_key(dusk) <= order_key(evening) && order_key(evening) <= order_key(morning) && order_key(
        morning,
    ) <= order_key(dawn) && 100 <= ticks && ticks < 1_000_000_000
}

/// The pointer at `a` leads to a clock.
pub open spec fn leads_to_daytime(mem: Memory, a: int) -> bool {
    mem.can_read(a, 8) && daytime_at(mem, word_at(mem, a) as int)
}

/// The clock of a surface: behind the known offset, or else behind the first of
/// the first `n` words that leads to one; 0 where there is none.
pub open spec fn scanned_daytime(mem: Memory, surface: int, n: int) -> int
    decreases n,
{
    if n <= 0 {
        0
    } else if scanned_daytime(mem, surface, n - 1) != 0 {
        scanned_daytime(mem, surface, n - 1)
    } else if leads_to_daytime(mem, surface + 8 * (n - 1)) {
        word_at(mem, surface + 8 * (n - 1)) as int
    } else {
        0
    }
}

/// The clock of a surface; 0 where it has none.
pub open spec fn daytime_of(mem: Memory, surface: int) -> int {
    if leads_to_daytime(mem, surface + SURFACE_DAYTIME) {
        word_at(mem, surface + SURFACE_DAYTIME) as int
    } else {
        scanned_daytime(mem, surface, 512)
    }
}

proof fn lemma_scan_stays(mem: Memory, surface: int, n: int, m: int)
    requires
        0 <= n <= m,
        scanned_daytime(mem, surface, n) != 0,
    ensures
        scanned_daytime(mem, surface, m) == scanned_daytime(mem, surface, n),
    decreases m,
{
    if n < m {
        lemma_scan_stays(mem, surface, n, m - 1);
    }
}

fn pointer_to_daytime(mem: &Memory, surface: u64, off: u64) -> (r: u64)
    requires
        mem.wf(),
    ensures
        r == if leads_to_daytime(*mem, surface + off) {
            word_at(*mem, surface + off)
        } else {
            0
        },
{
    match try_read_off(mem, surface, off, 8) {
        Some(p) => if validate_daytime(mem, p) {
            p
        } else {
            0
        },
        None => 0,
    }
}

/// Finds the clock of a surface: the known place first, then a search, which
/// survives changes of the layout.
pub fn find_daytime(mem: &Memory, surface: u64) -> (r: u64)
    requires
        mem.wf(),
    ensures
        r == daytime_of(*mem, surface as int),
{
    let known: u64 = pointer_to_daytime(mem, surface, SURFACE_DAYTIME);
    if known != 0 {
        return known;
    }
    assert(!leads_to_daytime(*mem, surface + SURFACE_DAYTIME));
    let mut i: u64 = 0;
    while i < 512
        invariant
            mem.wf(),
            i <= 512,
            scanned_daytime(*mem, surface as int, i as int) == 0,
            !leads_to_daytime(*mem, surface + SURFACE_DAYTIME),
        decreases 512 - i,
    {
        let p: u64 = pointer_to_daytime(mem, surface, 8 * i);
        if p != 0 {
            proof {
                assert(scanned_daytime(*mem, surface as int, i + 1) == p);
                lemma_scan_stays(*mem, surface as int, i + 1, 512);
            }
            return p;
        }
        i = i + 1;
    }
    0
}

/// The state after the clock of a surface has been looked up: what is remembered
/// is kept for as long as it is of the same surface and still looks like a clock.
pub open spec fn relocated(s: DayNight, mem: Memory, surface: u64) -> DayNight {
    if s.get_darkness == 0 || surface == 0 {
        s
    } else if s.cached_surface != surface || !daytime_at(mem, s.cached_daytime as int) {
        DayNight {
            cached_surface: surface,
            cached_daytime: daytime_of(mem, surface as int) as u64,
            ..s
        }
    } else {
        s
    }
}

/// The cap that the getter is called with: the surface's own, or 1 where that
/// is no number from 0 to 1.
pub open spec fn cap_of(mem: Memory, daytime: int) -> u64 {
    if mem.can_read(daytime + 0x38, 8) && unit_at(mem, daytime + 0x38) {
        word_at(mem, daytime + 0x38) as u64
    } else {
        ONE_DOUBLE
    }
}

/// Finds what the getter has to be called with this frame: the clock and the
/// cap. A clock that has been freed is never handed out.
pub fn sample(s: &mut DayNight, mem: &Memory, surface: u64) -> (r: Option<(u64, u64)>)
    requires
        mem.wf(),
    ensures
        *final(s) == relocated(*old(s), *mem, surface),
        r is Some <==> old(s).get_darkness != 0 && surface != 0 && final(s).cached_daytime != 0,
        r matches Some(c) ==> {
            &&& c.0 == final(s).cached_daytime
            &&& daytime_at(*mem, c.0 as int)
            &&& c.1 == cap_of(*mem, c.0 as int)
        },
{
    if s.get_darkness == 0 || surface == 0 {
        return None;
    }
    if s.cached_surface != surface || !validate_daytime(mem, s.cached_daytime) {
        let found: u64 = find_daytime(mem, surface);
        s.cached_surface = surface;
        s.cached_daytime = found;
    }
    let daytime: u64 = s.cached_daytime;
    if daytime == 0 {
        return None;
    }
    proof {
        lemma_found_is_daytime(*mem, surface as int, 512);
        assert(daytime_at(*mem, daytime as int));
        assert(mem.readable_at(daytime + 0x3f));
        crate::mem::lemma_readable_fits(mem, daytime + 0x3f);
    }
    let cap: u64 = match try_read_u64(mem, daytime + 0x38) {
        Some(c) => if is_unit_double(c) {
            c
        } else {
            ONE_DOUBLE
        },
        None => ONE_DOUBLE,
    };
    Some((daytime, cap))
}

/// What is found as a clock looks like one.
pub proof fn lemma_found_is_daytime(mem: Memory, surface: int, n: int)
    ensures
        scanned_daytime(mem, surface, n) != 0 ==> daytime_at(
            mem,
            scanned_daytime(mem, surface, n),
        ),
        daytime_of(mem, surface) != 0 ==> daytime_at(mem, daytime_of(mem, surface)),
    decreases n,
{
    if n > 0 {
        lemma_found_is_daytime(mem, surface, n - 1);
    }
    lemma_scanned(mem, surface, 512);
}

proof fn lemma_scanned(mem: Memory, surface: int, n: int)
    ensures
        scanned_daytime(mem, surface, n) != 0 ==> daytime_at(
            mem,
            scanned_daytime(mem, surface, n),
        ),
    decreases n,
{
    if n > 0 {
        lemma_scanned(mem, surface, n - 1);
    }
}

/// Takes the darkness that the getter gave; what is not from 0 to 1 is dropped.
pub fn store_darkness(s: &mut DayNight, bits: u32)
    ensures
        *final(s) == if unit_single(bits) {
            (DayNight { darkness: Some(bits), ..*old(s) })
        } else {
            *old(s)
        },
{
    if is_unit_single(bits) {
        s.darkness = Some(bits);
    }
}

/// The darkness that the game last computed; nothing before the first sample.
pub fn game_darkness(s: &DayNight) -> (r: Option<u32>)
    ensures
        r == s.darkness,
{
    s.darkness
}

/// What looks like a clock: it can be read, a day has from 100 up to a billion ticks,
/// and dusk, evening, morning and dawn follow each other between 0 and 1.
pub proof fn lemma_what_is_a_clock(mem: &Memory, p: u64, r: bool)
    requires
        mem.wf(),
        call_ensures(validate_daytime, (mem, p), r),
    ensures
        ({
            let bits = |k: int| word_at(*mem, p + k) as u64;
            let unit = |k: int| bits(k) <= 0x3FF0_0000_0000_0000 || bits(k) == 0x8000_0000_0000_0000;
            let rank = |k: int|
                if bits(k) == 0x8000_0000_0000_0000 {
                    0
                } else {
                    bits(k)
                };
            r <==> p != 0 && mem.can_read(p as int, 0x40) && unit(0) && unit(0x10) && unit(0x18) && unit(0x08) && unit(
                0x28,
            ) && rank(0) <= rank(0x10) <= rank(0x18) <= rank(0x08) && 100 <= word_at(*mem, p + 0x20)
                < 1_000_000_000
        }),
{
    assert(p + 0 == p);
}

proof fn lemma_scan_is_first(mem: Memory, surface: int, n: int, k: int)
    requires
        0 <= k < n,
        mem.can_read(surface + 8 * k, 8),
        daytime_at(mem, word_at(mem, surface + 8 * k) as int),
    ensures
        scanned_daytime(mem, surface, n) != 0,
        (forall|j: int|
            0 <= j < k ==> !(mem.can_read(#[trigger] (surface + 8 * j), 8) && daytime_at(
                mem,
                word_at(mem, surface + 8 * j) as int,
            ))) ==> scanned_daytime(mem, surface, n) == word_at(mem, surface + 8 * k),
    decreases n,
{
    if k < n - 1 {
        lemma_scan_is_first(mem, surface, n - 1, k);
    } else if scanned_daytime(mem, surface, n - 1) != 0 {
        lemma_scan_from(mem, surface, n - 1);
        let j = choose|j: int|
            0 <= j < n - 1 && mem.can_read(#[trigger] (surface + 8 * j), 8) && daytime_at(
                mem,
                word_at(mem, surface + 8 * j) as int,
            );
        assert(0 <= j < k);
    }
}

proof fn lemma_scan_from(mem: Memory, surface: int, n: int)
    requires
        scanned_daytime(mem, surface, n) != 0,
    ensures
        exists|j: int|
            0 <= j < n && mem.can_read(#[trigger] (surface + 8 * j), 8) && daytime_at(
                mem,
                word_at(mem, surface + 8 * j) as int,
            ),
    decreases n,
{
    if scanned_daytime(mem, surface, n - 1) != 0 {
        lemma_scan_from(mem, surface, n - 1);
    } else {
        assert(mem.can_read(surface + 8 * (n - 1), 8));
    }
}

/// The clock of a surface is looked for where it is known to be, and otherwise behind
/// the first of the words of the surface's first four kilobytes that leads to one; it
/// is found wherever one of them does.
pub proof fn lemma_where_the_clock_is(mem: &Memory, surface: u64, r: u64, k: int)
    requires
        mem.wf(),
        call_ensures(find_daytime, (mem, surface), r),
    ensures
        ({
            let leads = |a: int| mem.can_read(a, 8) && daytime_at(*mem, word_at(*mem, a) as int);
            &&& leads(surface + 0x830) ==> r == word_at(*mem, surface + 0x830)
            &&& 0 <= k < 512 && leads(surface + 8 * k) ==> r != 0
            &&& !leads(surface + 0x830) && 0 <= k < 512 && leads(surface + 8 * k) && (forall|j: int|
                0 <= j < k ==> !(mem.can_read(#[trigger] (surface + 8 * j), 8) && daytime_at(
                    *mem,
                    word_at(*mem, surface + 8 * j) as int,
                ))) ==> r == word_at(*mem, surface + 8 * k)
        }),
{
    let leads = |a: int| mem.can_read(a, 8) && daytime_at(*mem, word_at(*mem, a) as int);
    if 0 <= k < 512 && leads(surface + 8 * k) {
        lemma_scan_is_first(*mem, surface as int, 512, k);
    }
}

/// The clock of a surface is looked up again once the surface is another one or what is
/// remembered no longer looks like a clock; without a getter or a surface nothing is.
pub proof fn lemma_when_the_clock_is_looked_up(s: DayNight, mem: Memory, surface: u64)
    ensures
        ({
            let t = relocated(s, mem, surface);
            let again = s.get_darkness != 0 && surface != 0 && (s.cached_surface != surface || !daytime_at(
                mem,
                s.cached_daytime as int,
            ));
            &&& again ==> t.cached_surface == surface && t.cached_daytime == daytime_of(mem, surface as int) as u64
            &&& !again ==> t == s
            &&& t.darkness == s.darkness && t.get_darkness == s.get_darkness
        }),
{
}

/// The cap is the surface's own where it can be read and is from 0 to 1, and 1
/// otherwise.
pub proof fn lemma_caps(mem: Memory, daytime: int)
    ensures
        ({
            let own = word_at(mem, daytime + 0x38) as u64;
            let good = mem.can_read(daytime + 0x38, 8) && (own <= 0x3FF0_0000_0000_0000 || own
                == 0x8000_0000_0000_0000);
            cap_of(mem, daytime) == if good {
                own
            } else {
                0x3FF0_0000_0000_0000
            }
        }),
{
}

} // verus!
