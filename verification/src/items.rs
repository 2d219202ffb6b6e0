//! Which model an item has: by its prototype, by its number, and by the sprite
//! that it is drawn with on belts.

use crate::entities::{
    belt_record_due, drawn_again, grid_with, known_before, loads_after, model_of, outdated, record,
    takes_over, Entities, Record,
};
use crate::hooks::MapPos;
use crate::idmap::IdMap;
use crate::mem::{
    follow, found_views, number_at, pointed, readable, readable_off, scan_proto_strings, strings_in,
    try_read_off, word_at, Memory,
};
use crate::models::{
    item_resolved, resolve_item, text_opt, Disk, DiskSpec, EntityModel, Registry, Stock,
};
use crate::text::{contains, has_text};
use crate::util::le_value;
use vstd::prelude::*;

verus! {

/// The text can be the name of an item: it is no file and no label.
pub open spec fn plain_name(s: Seq<char>) -> bool {
    !has_text(s, "."@) && !has_text(s, "["@) && !has_text(s, "/"@)
}

/// The model of the first string that has one, and what is remembered after the
/// strings were asked for.
pub open spec fn first_item(s: Stock, d: DiskSpec, found: Seq<(u64, Seq<char>)>) -> (
    Option<Seq<char>>,
    Stock,
)
    decreases found.len(),
{
    if found.len() == 0 {
        (None, s)
    } else if !plain_name(found[0].1) {
        first_item(s, d, found.drop_first())
    } else {
        let (key, after) = item_resolved(s, d, found[0].1);
        if key is Some {
            (key, after)
        } else {
            first_item(after, d, found.drop_first())
        }
    }
}

/// The model of the first string that has one.
pub fn resolve_from_strings(
    reg: &mut Registry,
    disk: &Disk,
    strings: &Vec<(u64, String)>,
) -> (r: Option<String>)
    requires
        old(reg).wf(),
    ensures
        final(reg).wf(),
        (text_opt(r), final(reg).stock()) == first_item(
            old(reg).stock(),
            disk@,
            found_views(strings@),
        ),
{
    let ghost all = found_views(strings@);
    let ghost start = reg.stock();
    let mut i: usize = 0;
    assert(all.skip(0) =~= all);
    while i < strings.len()
        invariant
            reg.wf(),
            start == old(reg).stock(),
            i <= strings.len(),
            all == found_views(strings@),
            first_item(start, disk@, all) == first_item(reg.stock(), disk@, all.skip(i as int)),
        decreases strings.len() - i,
    {
        assert(all.skip(i as int)[0].1 == strings@[i as int].1@);
        assert(all.skip(i as int).drop_first() =~= all.skip(i + 1));
        let s: &str = strings[i].1.as_str();
        if !contains(s, ".") && !contains(s, "[") && !contains(s, "/") {
            match resolve_item(reg, disk, s) {
                Some(k) => {
                    return Some(k);
                },
                None => {},
            }
        }
        i = i + 1;
    }
    None
}

/// The model by the strings of what one of an item's first `n` words points to.
pub open spec fn hopped_item(mem: Memory, s: Stock, d: DiskSpec, item: int, n: int) -> (
    Option<Seq<char>>,
    Stock,
)
    decreases n,
{
    if n <= 0 {
        first_item(s, d, strings_in(mem, item, 192))
    } else {
        let before = hopped_item(mem, s, d, item, n - 1);
        match (before.0, pointed(mem, item, item + 8 * (n - 1))) {
            (None, Some(sub)) => first_item(before.1, d, strings_in(mem, sub, 192)),
            _ => before,
        }
    }
}

proof fn lemma_hopped(mem: Memory, s: Stock, d: DiskSpec, item: int, n: int, m: int)
    requires
        0 <= n <= m,
        hopped_item(mem, s, d, item, n).0 is Some,
    ensures
        hopped_item(mem, s, d, item, m) == hopped_item(mem, s, d, item, n),
    decreases m,
{
    if n < m {
        lemma_hopped(mem, s, d, item, n, m - 1);
    }
}

/// The model of an item: its name stands on the prototype or behind one of its
/// first four words.
pub fn scan_item(reg: &mut Registry, disk: &Disk, mem: &Memory, item: u64) -> (r: Option<String>)
    requires
        old(reg).wf(),
        mem.wf(),
    ensures
        final(reg).wf(),
        (text_opt(r), final(reg).stock()) == hopped_item(
            *mem,
            old(reg).stock(),
            disk@,
            item as int,
            4,
        ),
{
    let ghost start = reg.stock();
    let strings: Vec<(u64, String)> = scan_proto_strings(mem, item);
    match resolve_from_strings(reg, disk, &strings) {
        Some(k) => {
            proof {
                lemma_hopped(*mem, start, disk@, item as int, 0, 4);
            }
            return Some(k);
        },
        None => {},
    }
    let mut n: u64 = 0;
    while n < 4
        invariant
            reg.wf(),
            mem.wf(),
            start == old(reg).stock(),
            n <= 4,
            hopped_item(*mem, start, disk@, item as int, n as int) == (
                None::<Seq<char>>,
                reg.stock(),
            ),
        decreases 4 - n,
    {
        match follow(mem, item, n * 8) {
            Some(sub) => {
                let more: Vec<(u64, String)> = scan_proto_strings(mem, sub);
                match resolve_from_strings(reg, disk, &more) {
                    Some(k) => {
                        proof {
                            lemma_hopped(*mem, start, disk@, item as int, n + 1, 4);
                        }
                        return Some(k);
                    },
                    None => {},
                }
            },
            None => {},
        }
        n = n + 1;
    }
    None
}

/// What is known of items: their models, and what the registry remembers.
#[verifier::ext_equal]
pub ghost struct Known {
    pub keys: Map<u64, Option<Seq<char>>>,
    pub stock: Stock,
}

pub open spec fn keys_of(m: Map<u64, Option<String>>) -> Map<u64, Option<Seq<char>>> {
    m.map_values(|s: Option<String>| text_opt(s))
}

/// The model of an item, which is worked out once.
pub open spec fn item_key(mem: Memory, d: DiskSpec, k: Known, item: u64) -> (
    Option<Seq<char>>,
    Known,
) {
    if k.keys.contains_key(item) {
        (k.keys[item], k)
    } else {
        let (key, stock) = hopped_item(mem, k.stock, d, item as int, 4);
        (key, Known { keys: k.keys.insert(item, key), stock })
    }
}

/// The model of an item, which is worked out once.
pub fn item_proto_key(
    cache: &mut IdMap<Option<String>>,
    reg: &mut Registry,
    disk: &Disk,
    mem: &Memory,
    item: u64,
) -> (r: Option<String>)
    requires
        old(cache).wf(),
        old(reg).wf(),
        mem.wf(),
    ensures
        final(cache).wf(),
        final(reg).wf(),
        (
            text_opt(r),
            (Known { keys: keys_of(final(cache)@), stock: final(reg).stock() }),
        ) == item_key(
            *mem,
            disk@,
            Known { keys: keys_of(old(cache)@), stock: old(reg).stock() },
            item,
        ),
{
    match cache.get(item) {
        Some(known) => {
            return match known {
                Some(k) => Some(k.clone()),
                None => None,
            };
        },
        None => {},
    }
    let key: Option<String> = scan_item(reg, disk, mem, item);
    let kept: Option<String> = match &key {
        Some(k) => Some(k.clone()),
        None => None,
    };
    assert(text_opt(kept) == text_opt(key));
    cache.insert(item, kept);
    assert(keys_of(cache@) =~= keys_of(old(cache)@).insert(item, text_opt(key)));
    key
}

/// The prototype of an item in the table of all items.
pub open spec fn table_item(mem: Memory, table_ptr: u64, id: u64) -> Option<u64> {
    if table_ptr == 0 || id == 0 || !mem.can_read(table_ptr as int, 8) {
        None
    } else {
        let table = word_at(mem, table_ptr as int) as int;
        let item = word_at(mem, table + id * 8);
        if table == 0 || !mem.can_read(table + id * 8, 8) || item == 0 || !mem.can_read(
            item as int,
            0x40,
        ) {
            None
        } else {
            Some(item as u64)
        }
    }
}

/// The model of the item with a number.
pub open spec fn id_key(
    mem: Memory,
    d: DiskSpec,
    k: Known,
    table_ptr: u64,
    id: u64,
) -> (Option<Seq<char>>, Known) {
    match table_item(mem, table_ptr, id) {
        Some(item) => item_key(mem, d, k, item),
        None => (None, k),
    }
}

fn find_item(mem: &Memory, table_ptr: u64, id: u64) -> (r: Option<u64>)
    requires
        mem.wf(),
        id < 0x1_0000,
    ensures
        r == table_item(*mem, table_ptr, id),
{
    if table_ptr == 0 || id == 0 {
        return None;
    }
    let table: u64 = match try_read_off(mem, table_ptr, 0, 8) {
        Some(t) => t,
        None => {
            return None;
        },
    };
    if table == 0 {
        return None;
    }
    match try_read_off(mem, table, id * 8, 8) {
        Some(item) => if item == 0 || !readable(mem, item, 0x40) {
            None
        } else {
            Some(item)
        },
        None => None,
    }
}

/// Whether the model of the item with a number has yet to be worked out.
pub fn asks_item(cache: &IdMap<Option<String>>, mem: &Memory, table_ptr: u64, id: u64) -> (r: bool)
    requires
        cache.wf(),
        mem.wf(),
        id < 0x1_0000,
    ensures
        r == (table_item(*mem, table_ptr, id) matches Some(item) && !cache@.contains_key(item)),
{
    match find_item(mem, table_ptr, id) {
        Some(item) => !cache.contains(item),
        None => false,
    }
}

/// The model of the item with a number.
pub fn item_key_by_id(
    cache: &mut IdMap<Option<String>>,
    reg: &mut Registry,
    disk: &Disk,
    mem: &Memory,
    table_ptr: u64,
    id: u64,
) -> (r: Option<String>)
    requires
        old(cache).wf(),
        old(reg).wf(),
        mem.wf(),
        id < 0x1_0000,
    ensures
        final(cache).wf(),
        final(reg).wf(),
        (
            text_opt(r),
            (Known { keys: keys_of(final(cache)@), stock: final(reg).stock() }),
        ) == id_key(
            *mem,
            disk@,
            Known { keys: keys_of(old(cache)@), stock: old(reg).stock() },
            table_ptr,
            id,
        ),
{
    match find_item(mem, table_ptr, id) {
        Some(item) => item_proto_key(cache, reg, disk, mem, item),
        None => None,
    }
}

/// Where an item's prototype says which sprites it has on belts.
pub const ITEM_PROTO_SPRITE_BASE: u64 = 0x368;

pub const ITEM_PROTO_SPRITE_END: u64 = 0x370;

/// The size of a sprite.
pub const ITEM_SPRITE_STRIDE: u64 = 0xA0;

/// Where an item's prototype points to its icon, and where the sprite stands
/// there.
pub const ITEM_PROTO_ICON_FIELD: u64 = 0x2B8;

pub const ITEM_PROTO_ICON_SPRITE_OFF: u64 = 0x68;

/// The most sprites that an item has.
pub const MAX_PICTURES: u64 = 128;

/// The most items.
pub const MAX_ITEM_IDS: u64 = 2048;

/// The sprite of an item's icon, where there is one.
pub open spec fn icon_sprite(mem: Memory, proto: int) -> Option<u64> {
    let base = word_at(mem, proto + 0x2B8) as int;
    if mem.can_read(proto + 0x2B8, 8) && base != 0 && mem.can_read(base + 0x68, 0x10) {
        Some((base + 0x68) as u64)
    } else {
        None
    }
}

/// The sprites that an item has on belts: the first one and how many.
pub open spec fn pictures(mem: Memory, proto: int) -> (int, int) {
    let base = word_at(mem, proto + 0x368) as int;
    let end = word_at(mem, proto + 0x370) as int;
    let count = (end - base) / 0xA0;
    if mem.can_read(proto + 0x368, 8) && mem.can_read(proto + 0x370, 8) && base != 0 && end > base
        && (end - base) % 0xA0 == 0 && 1 <= count <= 128 && mem.can_read(base, 0xA0) {
        (base, count)
    } else {
        (0, 0)
    }
}

/// The sprites with `n` more of them, which stand in a row, for a model.
pub open spec fn with_pictures(
    m: Map<u64, Seq<char>>,
    base: int,
    n: int,
    key: Seq<char>,
) -> Map<u64, Seq<char>>
    decreases n,
{
    if n <= 0 {
        m
    } else {
        with_pictures(m, base, n - 1, key).insert((base + (n - 1) * 0xA0) as u64, key)
    }
}

/// The sprites with those of an item.
pub open spec fn with_sprites(
    mem: Memory,
    m: Map<u64, Seq<char>>,
    proto: int,
    key: Seq<char>,
) -> Map<u64, Seq<char>> {
    let icon = match icon_sprite(mem, proto) {
        Some(s) => m.insert(s, key),
        None => m,
    };
    with_pictures(icon, pictures(mem, proto).0, pictures(mem, proto).1, key)
}

/// The entries of the table up to a number can all be read.
pub open spec fn reaches(mem: Memory, table: int, n: int) -> bool {
    forall|i: int| 1 <= i <= n ==> #[trigger] mem.can_read(table + i * 8, 8)
}

/// The sprites of the items with numbers up to `n`, and what is known after
/// they were looked up.
pub open spec fn belt_sprites(
    mem: Memory,
    d: DiskSpec,
    k: Known,
    table_ptr: u64,
    n: int,
) -> (Map<u64, Seq<char>>, Known)
    decreases n,
{
    if n <= 0 {
        (Map::empty(), k)
    } else {
        let before = belt_sprites(mem, d, k, table_ptr, n - 1);
        let table = word_at(mem, table_ptr as int) as int;
        let proto = word_at(mem, table + n * 8) as int;
        if !reaches(mem, table, n) || proto == 0 || !mem.can_read(proto + 0x378, 8) {
            before
        } else {
            let (key, after) = id_key(mem, d, before.1, table_ptr, n as u64);
            match key {
                Some(s) => (with_sprites(mem, before.0, proto, s), after),
                None => (before.0, after),
            }
        }
    }
}

pub open spec fn texts(m: Map<u64, String>) -> Map<u64, Seq<char>> {
    m.map_values(|s: String| s@)
}

fn put(map: &mut IdMap<String>, sprite: u64, key: &String)
    requires
        old(map).wf(),
    ensures
        final(map).wf(),
        texts(final(map)@) == texts(old(map)@).insert(sprite, key@),
{
    map.insert(sprite, key.clone());
    assert(texts(map@) =~= texts(old(map)@).insert(sprite, key@));
}

fn add_sprites(map: &mut IdMap<String>, mem: &Memory, proto: u64, key: &String)
    requires
        old(map).wf(),
        mem.wf(),
    ensures
        final(map).wf(),
        texts(final(map)@) == with_sprites(*mem, texts(old(map)@), proto as int, key@),
{
    match try_read_off(mem, proto, ITEM_PROTO_ICON_FIELD, 8) {
        Some(icon) => {
            if icon != 0 && readable_off(mem, icon, ITEM_PROTO_ICON_SPRITE_OFF, 0x10) {
                proof {
                    assert(mem.readable_at(icon + ITEM_PROTO_ICON_SPRITE_OFF + 0));
                    crate::mem::lemma_readable_fits(mem, icon + ITEM_PROTO_ICON_SPRITE_OFF);
                }
                put(map, icon + ITEM_PROTO_ICON_SPRITE_OFF, key);
            }
        },
        None => {},
    }
    let ghost mid = texts(map@);
    let base: u64 = match try_read_off(mem, proto, ITEM_PROTO_SPRITE_BASE, 8) {
        Some(b) => b,
        None => {
            return;
        },
    };
    let end: u64 = match try_read_off(mem, proto, ITEM_PROTO_SPRITE_END, 8) {
        Some(e) => e,
        None => {
            return;
        },
    };
    if base == 0 || end <= base || (end - base) % ITEM_SPRITE_STRIDE != 0 {
        return;
    }
    let count: u64 = (end - base) / ITEM_SPRITE_STRIDE;
    if count < 1 || count > MAX_PICTURES || !readable(mem, base, ITEM_SPRITE_STRIDE) {
        return;
    }
    let mut v: u64 = 0;
    while v < count
        invariant
            map.wf(),
            v <= count,
            base + count * 0xA0 == end,
            texts(map@) == with_pictures(mid, base as int, v as int, key@),
        decreases count - v,
    {
        put(map, base + v * ITEM_SPRITE_STRIDE, key);
        v = v + 1;
    }
}

/// Looks up which item each sprite on belts stands for. Nothing is found as long
/// as the table of items is not known.
pub fn ensure_belt_sprite_map(
    cache: &mut IdMap<Option<String>>,
    reg: &mut Registry,
    disk: &Disk,
    mem: &Memory,
    table_ptr: u64,
) -> (r: Option<IdMap<String>>)
    requires
        old(cache).wf(),
        old(reg).wf(),
        mem.wf(),
        table_ptr != 0 ==> mem.can_read(table_ptr as int, 8),
    ensures
        final(cache).wf(),
        final(reg).wf(),
        r is Some <==> table_ptr != 0,
        table_ptr == 0 ==> final(cache)@ == old(cache)@ && final(reg).stock() == old(reg).stock(),
        r matches Some(m) ==> m.wf() && (
            texts(m@),
            (Known { keys: keys_of(final(cache)@), stock: final(reg).stock() }),
        ) == belt_sprites(
            *mem,
            disk@,
            Known { keys: keys_of(old(cache)@), stock: old(reg).stock() },
            table_ptr,
            2047,
        ),
{
    if table_ptr == 0 {
        return None;
    }
    let mut map: IdMap<String> = IdMap::new();
    let table: u64 = match try_read_off(mem, table_ptr, 0, 8) {
        Some(t) => t,
        None => 0,
    };
    assert(table == word_at(*mem, table_ptr as int));
    let ghost start = Known { keys: keys_of(cache@), stock: reg.stock() };
    assert(texts(map@) =~= Map::<u64, Seq<char>>::empty());
    let mut id: u64 = 1;
    while id < MAX_ITEM_IDS
        invariant
            cache.wf(),
            reg.wf(),
            mem.wf(),
            map.wf(),
            start == (Known { keys: keys_of(old(cache)@), stock: old(reg).stock() }),
            table_ptr != 0,
            table == word_at(*mem, table_ptr as int),
            1 <= id <= 2048,
            reaches(*mem, table as int, id - 1),
            (texts(map@), (Known { keys: keys_of(cache@), stock: reg.stock() })) == belt_sprites(
                *mem,
                disk@,
                start,
                table_ptr,
                id - 1,
            ),
        decreases 2048 - id,
    {
        let proto: u64 = match try_read_off(mem, table, id * 8, 8) {
            Some(p) => p,
            None => {
                proof {
                    lemma_sprites_stop(*mem, disk@, start, table_ptr, id as int, 2047);
                }
                return Some(map);
            },
        };
        assert(reaches(*mem, table as int, id as int));
        if proto != 0 && readable_off(mem, proto, 0x378, 8) {
            match item_key_by_id(cache, reg, disk, mem, table_ptr, id) {
                Some(key) => {
                    add_sprites(&mut map, mem, proto, &key);
                },
                None => {},
            }
        }
        id = id + 1;
    }
    Some(map)
}

proof fn lemma_sprites_stop(mem: Memory, d: DiskSpec, k: Known, table_ptr: u64, n: int, m: int)
    requires
        1 <= n <= m,
        !mem.can_read(word_at(mem, table_ptr as int) + n * 8, 8),
    ensures
        belt_sprites(mem, d, k, table_ptr, m) == belt_sprites(mem, d, k, table_ptr, n - 1),
    decreases m,
{
    let table = word_at(mem, table_ptr as int) as int;
    assert(!reaches(mem, table, m)) by {
        if reaches(mem, table, m) {
            assert(mem.can_read(table + n * 8, 8));
        }
    }
    if n < m {
        lemma_sprites_stop(mem, d, k, table_ptr, n, m - 1);
    }
}

/// The machine code that loads the address of the table of items starts at a
/// place.
pub open spec fn loads_table(code: Seq<u8>, i: int) -> bool {
    code[i] == 0x48 && code[i + 1] == 0x8B && code[i + 2] == 0x05
}

/// The first place where that code starts, from `i` on.
pub open spec fn table_load(code: Seq<u8>, i: int) -> Option<int>
    decreases code.len() - i,
{
    if i < 0 || i + 7 >= code.len() {
        None
    } else if loads_table(code, i) {
        Some(i)
    } else {
        table_load(code, i + 1)
    }
}

/// The distance that four bytes stand for.
pub open spec fn distance(code: Seq<u8>, i: int) -> int {
    let n = le_value(code.subrange(i, i + 4)) as int;
    if n >= 0x8000_0000 {
        n - 0x1_0000_0000
    } else {
        n
    }
}

/// The address that the code loads: it is given by its distance from the code's
/// end.
pub open spec fn table_address(start: u64, code: Seq<u8>) -> Option<u64> {
    match table_load(code, 0) {
        Some(i) => Some(
            ((start + i + 7 + distance(code, i + 3)) % 0x1_0000_0000_0000_0000) as u64,
        ),
        None => None,
    }
}

/// The number of bytes of a function in which the table of items is looked for.
pub const CODE_BYTES: u64 = 0x40;

fn shift(a: u64, d: u64) -> (r: u64)
    requires
        d < 0x1_0000_0000,
    ensures
        r as int == (a + (if d >= 0x8000_0000 {
            d - 0x1_0000_0000
        } else {
            d as int
        })) % 0x1_0000_0000_0000_0000,
{
    if d >= 0x8000_0000 {
        a.wrapping_sub(0x1_0000_0000 - d)
    } else {
        a.wrapping_add(d)
    }
}

/// The address at which the table of items is found: the code of the function
/// that draws items loads it.
pub fn parse_item_table(mem: &Memory, draw_internal: u64) -> (r: Option<u64>)
    requires
        mem.wf(),
    ensures
        r == if mem.can_read(draw_internal as int, 0x40) {
            table_address(draw_internal, mem.bytes_at(draw_internal as int, 0x40))
        } else {
            None
        },
{
    if !readable(mem, draw_internal, CODE_BYTES) {
        return None;
    }
    proof {
        assert(mem.readable_at(draw_internal + 0x3F));
        crate::mem::lemma_readable_fits(mem, draw_internal + 0x3F);
    }
    let code: Vec<u8> = crate::mem::read(mem, draw_internal, CODE_BYTES);
    let mut i: usize = 0;
    while i + 7 < code.len()
        invariant
            code@.len() == 0x40,
            i <= 0x40,
            code@ == mem.bytes_at(draw_internal as int, 0x40),
            mem.can_read(draw_internal as int, 0x40),
            draw_internal + 0x3F < u64::MAX,
            table_load(code@, 0) == table_load(code@, i as int),
        decreases 0x40 - i,
    {
        if code[i] == 0x48 && code[i + 1] == 0x8B && code[i + 2] == 0x05 {
            let d: u64 = crate::util::le_u64(&code, i + 3, i + 7);
            proof {
                crate::util::lemma_le_value_bound(code@.subrange(i + 3, i + 7));
                lemma_four_bytes();
            }
            return Some(shift(draw_internal + i as u64 + 7, d));
        }
        i = i + 1;
    }
    None
}

proof fn lemma_four_bytes()
    ensures
        crate::util::bytes_range(4) == 0x1_0000_0000,
{
    reveal_with_fuel(crate::util::bytes_range, 5);
}

/// What the current thread draws of items.
#[derive(Clone, Copy, PartialEq, Eq, Structural, Debug)]
pub struct ItemContext {
    /// The item on the ground that is drawn; 0 for none.
    pub ground_item: u64,
    /// A stack of items is drawn.
    pub in_stack: bool,
    /// A belt draws its items.
    pub in_belt: bool,
}

/// What becomes of an item that the game draws.
#[derive(Clone, Copy, PartialEq, Eq, Structural, Debug)]
pub enum ItemUse {
    Ignored,
    /// It is drawn as a model.
    Recorded,
    /// It lies on the ground and becomes an entity.
    Adopted(u64),
}

/// What becomes of an item in the hand of an inserter: those that are drawn as
/// part of a stack are dealt with there.
pub fn hooked_draw_item_stack(c: &ItemContext, pos: u64, ghost: bool, known: bool) -> (r: ItemUse)
    ensures
        r == if !c.in_stack && pos != 0 && !ghost && known {
            ItemUse::Recorded
        } else {
            ItemUse::Ignored
        },
{
    if !c.in_stack && pos != 0 && !ghost && known {
        ItemUse::Recorded
    } else {
        ItemUse::Ignored
    }
}

/// What becomes of a stack of items that the game draws.
pub fn hooked_draw_internal(c: &ItemContext, stack_readable: bool, pos: u64, ghost: bool, known: bool) -> (r: ItemUse)
    ensures
        r == if !stack_readable || pos == 0 || ghost || !known {
            ItemUse::Ignored
        } else if c.ground_item != 0 {
            ItemUse::Adopted(c.ground_item)
        } else {
            ItemUse::Recorded
        },
{
    if !stack_readable || pos == 0 || ghost || !known {
        ItemUse::Ignored
    } else if c.ground_item != 0 {
        ItemUse::Adopted(c.ground_item)
    } else {
        ItemUse::Recorded
    }
}

/// What becomes of an item that the game draws on the map by itself.
pub fn hooked_draw_item_on_map(c: &ItemContext, pos: u64, item_readable: bool, ghost: bool, known: bool) -> (r: ItemUse)
    ensures
        r == if !c.in_stack && pos != 0 && item_readable && !ghost && known {
            ItemUse::Recorded
        } else {
            ItemUse::Ignored
        },
{
    if !c.in_stack && pos != 0 && item_readable && !ghost && known {
        ItemUse::Recorded
    } else {
        ItemUse::Ignored
    }
}

/// The model of a sprite that is drawn while a belt draws its items.
pub fn hooked_scaled_tinted(
    c: &ItemContext,
    sprites: &IdMap<String>,
    sprite: u64,
    pos: u64,
    ghost: bool,
) -> (r: Option<String>)
    requires
        sprites.wf(),
    ensures
        text_opt(r) == if c.in_belt && pos != 0 && !ghost && sprites@.contains_key(sprite) {
            Some(sprites@[sprite]@)
        } else {
            None
        },
{
    if !c.in_belt || pos == 0 || ghost {
        return None;
    }
    match sprites.get(sprite) {
        Some(k) => Some(k.clone()),
        None => None,
    }
}

/// The number of the item that an inserter holds stands here in it.
pub const INSERTER_HELD_ITEM_ID: u64 = 0x114;

/// The number of the item that an inserter holds; none for an empty hand.
pub fn held_item(mem: &Memory, inserter: u64) -> (r: Option<u16>)
    requires
        mem.wf(),
    ensures
        ({
            let a = inserter + 0x114;
            let id = number_at(*mem, a, 2);
            &&& r is Some <==> mem.can_read(a, 2) && id != 0
            &&& r matches Some(n) ==> n == id
        }),
{
    match try_read_off(mem, inserter, INSERTER_HELD_ITEM_ID, 2) {
        Some(id) => {
            proof {
                lemma_two_bytes(mem.bytes_at(inserter + 0x114, 2));
            }
            if id == 0 {
                None
            } else {
                Some(id as u16)
            }
        },
        None => None,
    }
}

proof fn lemma_two_bytes(b: Seq<u8>)
    requires
        b.len() == 2,
    ensures
        le_value(b) < 0x1_0000,
{
    crate::util::lemma_le_value_bound(b);
    reveal_with_fuel(crate::util::bytes_range, 3);
}

/// Whether an inserter reaches twice as far as the others.
pub fn reaches_far(key: &str) -> (r: bool)
    ensures
        r == has_text(key@, "/long-handed/"@),
{
    contains(key, "/long-handed/")
}

/// Takes note of a belt that draws its items, though not in every frame: belts
/// stand still.
pub fn record_belt(
    e: &mut Entities,
    seen: &mut IdMap<u64>,
    reg: &mut Registry,
    model: Option<&EntityModel>,
    belt: u64,
    pos: Option<MapPos>,
    dir: u8,
    surface: u64,
    frame: u64,
)
    requires
        old(e).wf(),
        old(seen).wf(),
        old(reg).wf(),
        model matches Some(m) ==> m.parts@.len() > 0,
    ensures
        final(e).wf(),
        final(seen).wf(),
        final(reg).wf(),
        final(reg).shelf() == old(reg).shelf(),
        ({
            let due = belt != 0 && outdated(
                if old(seen)@.contains_key(belt) {
                    Some(old(seen)@[belt])
                } else {
                    None
                },
                frame,
            );
            &&& final(seen)@ == if due {
                old(seen)@.insert(belt, frame)
            } else {
                old(seen)@
            }
            &&& !(due && model is Some && pos is Some) ==> *final(e) == *old(e)
            &&& !(due && model is Some && pos is Some) ==> final(reg).loads() == old(reg).loads()
            &&& due && model is Some && pos is Some ==> {
                let rec = Record { dir, surface, ..Record::placed(belt, pos->0) };
                let before = known_before(old(e).entries@, rec, model->0@, frame);
                let known = final(e).entries@[belt];
                &&& final(e).entries@ == old(e).entries@.insert(belt, known)
                &&& known.state == drawn_again(before, rec, frame)
                &&& known.model@ == if old(e).entries@.contains_key(belt) {
                    old(e).entries@[belt].model@
                } else {
                    model->0@
                }
                &&& final(e).grid@ == grid_with(old(e).grid@, model->0.kind, pos->0, dir)
                &&& final(reg).loads() == loads_after(
                    old(e).entries@,
                    *old(reg),
                    model->0@,
                    rec,
                    frame,
                )
            }
        }),
{
    if belt == 0 || !belt_record_due(seen, belt, frame) {
        return;
    }
    match (model, pos) {
        (Some(m), Some(p)) => {
            let mut rec: Record = Record::at(belt, p);
            rec.dir = dir;
            rec.surface = surface;
            let shown: bool = record(e, reg, m, &rec, frame);
        },
        _ => {},
    }
}

/// The draw of an item that lies on the ground. One that is known is recorded
/// where it has a position; the result says whether its model takes the place of
/// its sprite. An unknown one is drawn under a mark, by which it becomes known.
pub fn hooked_item_entity_draw(
    e: &mut Entities,
    reg: &mut Registry,
    item: u64,
    pos: Option<MapPos>,
    surface: u64,
    as_ghost: bool,
    frame: u64,
) -> (r: GroundDraw)
    requires
        old(e).wf(),
        old(reg).wf(),
    ensures
        final(e).wf(),
        final(reg).wf(),
        final(reg).shelf() == old(reg).shelf(),
        ({
            let skip = item == 0 || as_ghost;
            let known = old(e).entries@.contains_key(item);
            let model = old(e).entries@[item].model@;
            let rec = Record { surface, ..Record::placed(item, pos->0) };
            &&& skip ==> r == GroundDraw::Plain
            &&& !skip && !known ==> r == GroundDraw::Marked
            &&& skip || !known || pos is None ==> *final(e) == *old(e) && final(reg).loads()
                == old(reg).loads()
            &&& !skip && known && pos is None ==> r == GroundDraw::Plain
            &&& !skip && known && pos is Some ==> {
                let now = final(e).entries@[item];
                &&& r == if takes_over(old(e).entries@, *old(reg), model, rec, frame) {
                    GroundDraw::Hidden
                } else {
                    GroundDraw::Plain
                }
                &&& final(e).entries@ == old(e).entries@.insert(item, now)
                &&& now.state == drawn_again(old(e).entries@[item].state, rec, frame)
                &&& now.model@ == model
                &&& final(e).grid@ == grid_with(old(e).grid@, model.kind, pos->0, 0)
                &&& final(reg).loads() == loads_after(
                    old(e).entries@,
                    *old(reg),
                    model,
                    rec,
                    frame,
                )
            }
        }),
{
    if item == 0 || as_ghost {
        return GroundDraw::Plain;
    }
    match model_of(e, item) {
        Some(m) => match pos {
            Some(p) => {
                let mut rec: Record = Record::at(item, p);
                rec.surface = surface;
                assert(m@.parts.len() == m.parts@.len());
                assert(e.entries@[item].model@.parts.len() == e.entries@[item].model.parts@.len());
                if record(e, reg, &m, &rec, frame) {
                    GroundDraw::Hidden
                } else {
                    GroundDraw::Plain
                }
            },
            None => GroundDraw::Plain,
        },
        None => GroundDraw::Marked,
    }
}

/// What becomes of the draw of an item that lies on the ground.
#[derive(Clone, Copy, PartialEq, Eq, Structural, Debug)]
pub enum GroundDraw {
    /// The game draws it.
    Plain,
    /// The game draws it, under a mark by which the item becomes known.
    Marked,
    /// Its model takes the place of its sprite.
    Hidden,
}

/// A name is no file, no label and no path: it holds no dot, no bracket and no slash.
pub proof fn lemma_plain_names(s: Seq<char>, i: int)
    ensures
        0 <= i < s.len() && (s[i] == '.' || s[i] == '[' || s[i] == '/') ==> !plain_name(s),
        !plain_name(s) ==> exists|k: int| 0 <= k < s.len() && (#[trigger] s[k] == '.' || s[k] == '[' || s[k] == '/'),
{
    reveal_strlit(".");
    reveal_strlit("[");
    reveal_strlit("/");
    if 0 <= i < s.len() {
        assert(s[i] == '.' ==> s.subrange(i, i + 1) =~= "."@);
        assert(s[i] == '[' ==> s.subrange(i, i + 1) =~= "["@);
        assert(s[i] == '/' ==> s.subrange(i, i + 1) =~= "/"@);
        assert(s[i] == '.' ==> crate::text::occurs_at(s, "."@, i));
        assert(s[i] == '[' ==> crate::text::occurs_at(s, "["@, i));
        assert(s[i] == '/' ==> crate::text::occurs_at(s, "/"@, i));
    }
    if has_text(s, "."@) {
        let k = choose|k: int| crate::text::occurs_at(s, "."@, k);
        assert(s.subrange(k, k + 1)[0] == s[k]);
    }
    if has_text(s, "["@) {
        let k = choose|k: int| crate::text::occurs_at(s, "["@, k);
        assert(s.subrange(k, k + 1)[0] == s[k]);
    }
    if has_text(s, "/"@) {
        let k = choose|k: int| crate::text::occurs_at(s, "/"@, k);
        assert(s.subrange(k, k + 1)[0] == s[k]);
    }
}

/// A name that stands on an item is asked for, unless it is none.
pub proof fn lemma_one_name_is_tried(s: Stock, d: DiskSpec, off: u64, n: Seq<char>)
    ensures
        first_item(s, d, Seq::empty()) == (None::<Seq<char>>, s),
        plain_name(n) ==> first_item(s, d, seq![(off, n)]) == item_resolved(s, d, n),
        !plain_name(n) ==> first_item(s, d, seq![(off, n)]) == (None::<Seq<char>>, s),
{
    let one = seq![(off, n)];
    assert(one.drop_first() =~= Seq::<(u64, Seq<char>)>::empty());
    assert(one[0].1 == n);
    let (key, after) = item_resolved(s, d, n);
    assert(first_item(after, d, one.drop_first()) == (None::<Seq<char>>, after));
    assert(first_item(s, d, one.drop_first()) == (None::<Seq<char>>, s));
    if key is None {
        assert(item_resolved(s, d, n) == (None::<Seq<char>>, after));
    }
}

/// The names that stand on an item are tried one after the other: the first that has a
/// model decides, and those behind it are not asked.
pub proof fn lemma_item_names_are_tried(s: Stock, d: DiskSpec, a: Seq<(u64, Seq<char>)>, b: Seq<(u64, Seq<char>)>)
    ensures
        first_item(s, d, a).0 is Some ==> first_item(s, d, a + b) == first_item(s, d, a),
        first_item(s, d, a).0 is None ==> first_item(s, d, a + b) == first_item(first_item(s, d, a).1, d, b),
    decreases a.len(),
{
    if a.len() > 0 {
        assert((a + b)[0] == a[0]);
        assert((a + b).drop_first() =~= a.drop_first() + b);
        let n = a[0].1;
        if plain_name(n) {
            let (key, after) = item_resolved(s, d, n);
            if key is None {
                lemma_item_names_are_tried(after, d, a.drop_first(), b);
            }
        } else {
            lemma_item_names_are_tried(s, d, a.drop_first(), b);
        }
    } else {
        assert(a + b =~= b);
    }
}

/// The name of an item stands on its prototype, or else behind the first of its first
/// four words that leads to one. Once worked out the answer stays.
pub proof fn lemma_where_names_of_items_stand(mem: Memory, d: DiskSpec, k: Known, item: u64)
    ensures
        k.keys.contains_key(item) ==> item_key(mem, d, k, item) == (k.keys[item], k),
        item_key(mem, d, item_key(mem, d, k, item).1, item) == (
            item_key(mem, d, k, item).0,
            item_key(mem, d, k, item).1,
        ),
        !k.keys.contains_key(item) && first_item(k.stock, d, strings_in(mem, item as int, 192)).0 is Some
            ==> item_key(mem, d, k, item).0 == first_item(k.stock, d, strings_in(mem, item as int, 192)).0,
        !k.keys.contains_key(item) && first_item(k.stock, d, strings_in(mem, item as int, 192)).0 is None && pointed(
            mem,
            item as int,
            item as int,
        ) is Some ==> ({
            let own = first_item(k.stock, d, strings_in(mem, item as int, 192));
            let next = first_item(own.1, d, strings_in(mem, pointed(mem, item as int, item as int)->0, 192));
            next.0 is Some ==> item_key(mem, d, k, item).0 == next.0
        }),
{
    let i = item as int;
    if first_item(k.stock, d, strings_in(mem, i, 192)).0 is Some {
        assert(hopped_item(mem, k.stock, d, i, 0).0 is Some);
        lemma_hopped(mem, k.stock, d, i, 0, 4);
    } else if pointed(mem, i, i) is Some {
        let own = first_item(k.stock, d, strings_in(mem, i, 192));
        let next = first_item(own.1, d, strings_in(mem, pointed(mem, i, i)->0, 192));
        if next.0 is Some {
            assert(hopped_item(mem, k.stock, d, i, 0) == own);
            assert(i + 8 * (1 - 1) == i);
            assert(hopped_item(mem, k.stock, d, i, 1) == next);
            lemma_hopped(mem, k.stock, d, i, 1, 4);
        }
    }
}

proof fn lemma_pictures_put(m: Map<u64, Seq<char>>, base: int, n: int, key: Seq<char>, sprite: u64)
    requires
        0 <= base,
        base + n * 0xA0 <= u64::MAX,
    ensures
        (exists|k: int| 0 <= k < n && sprite == #[trigger] (base + k * 0xA0)) ==> with_pictures(m, base, n, key).contains_key(sprite)
            && with_pictures(m, base, n, key)[sprite] == key,
        !(exists|k: int| 0 <= k < n && sprite == #[trigger] (base + k * 0xA0)) ==> with_pictures(m, base, n, key).contains_key(sprite)
            == m.contains_key(sprite) && (m.contains_key(sprite) ==> with_pictures(m, base, n, key)[sprite] == m[sprite]),
    decreases n,
{
    if n > 0 {
        lemma_pictures_put(m, base, n - 1, key, sprite);
        if sprite == base + (n - 1) * 0xA0 {
            assert(with_pictures(m, base, n, key).contains_key(sprite));
        }
    }
}

/// The sprites that stand for an item on belts are its pictures, one behind the other,
/// and the one of its icon; others go on standing for what they did.
pub proof fn lemma_sprites_of_an_item(mem: Memory, m: Map<u64, Seq<char>>, proto: int, key: Seq<char>, sprite: u64)
    requires
        pictures(mem, proto).0 + pictures(mem, proto).1 * 0xA0 <= u64::MAX,
    ensures
        ({
            let (base, n) = pictures(mem, proto);
            let r = with_sprites(mem, m, proto, key);
            let own = icon_sprite(mem, proto) == Some(sprite) || exists|k: int|
                0 <= k < n && sprite == #[trigger] (base + k * 0xA0);
            &&& own ==> r.contains_key(sprite) && r[sprite] == key
            &&& !own ==> r.contains_key(sprite) == m.contains_key(sprite) && (m.contains_key(sprite) ==> r[sprite]
                == m[sprite])
        }),
{
    let icon = match icon_sprite(mem, proto) {
        Some(s) => m.insert(s, key),
        None => m,
    };
    lemma_pictures_put(icon, pictures(mem, proto).0, pictures(mem, proto).1, key, sprite);
}

/// The pictures of an item fill what lies between two pointers, and there are from one
/// to 128 of them; its icon lies behind a third.
pub proof fn lemma_pictures_of_an_item(mem: Memory, proto: int)
    ensures
        ({
            let (base, n) = pictures(mem, proto);
            let from = word_at(mem, proto + 0x368) as int;
            let to = word_at(mem, proto + 0x370) as int;
            let there = mem.can_read(proto + 0x368, 8) && mem.can_read(proto + 0x370, 8) && mem.can_read(from, 160);
            &&& n > 0 ==> there && base == from && base + 160 * n == to && base != 0 && n <= 128
            &&& there && from != 0 && from < to <= from + 160 * 128 && (to - from) % 160
                == 0 ==> n > 0
        }),
        icon_sprite(mem, proto) matches Some(s) ==> mem.can_read(proto + 0x2B8, 8) && word_at(mem, proto + 0x2B8) != 0
            && s == (word_at(mem, proto + 0x2B8) + 0x68) as u64,
{
}

proof fn lemma_table_load(code: Seq<u8>, i: int, k: int)
    requires
        0 <= i <= k,
        k + 7 < code.len(),
        code[k] == 0x48 && code[k + 1] == 0x8B && code[k + 2] == 0x05,
        forall|j: int| i <= j < k ==> !(#[trigger] code[j] == 0x48 && code[j + 1] == 0x8B && code[j + 2] == 0x05),
    ensures
        table_load(code, i) == Some(k),
    decreases code.len() - i,
{
    if i < k {
        assert(!(code[i] == 0x48 && code[i + 1] == 0x8B && code[i + 2] == 0x05));
        lemma_table_load(code, i + 1, k);
    }
}

/// The table of items is loaded by the first `mov` of its sort in the code, from as far
/// behind its end as the four bytes in it say, or before it where they are negative.
pub proof fn lemma_where_the_table_is(mem: &Memory, start: u64, r: Option<u64>, k: int)
    requires
        mem.wf(),
        call_ensures(parse_item_table, (mem, start), r),
        mem.can_read(start as int, 0x40),
        0 <= k < 57,
        ({
            let c = mem.bytes_at(start as int, 0x40);
            &&& c[k] == 0x48 && c[k + 1] == 0x8B && c[k + 2] == 0x05
            &&& forall|j: int| 0 <= j < k ==> !(#[trigger] c[j] == 0x48 && c[j + 1] == 0x8B && c[j + 2] == 0x05)
        }),
    ensures
        ({
            let n = le_value(mem.bytes_at(start as int, 0x40).subrange(k + 3, k + 7)) as int;
            let d = if n < 0x8000_0000 {
                n
            } else {
                n - 0x1_0000_0000
            };
            r is Some && r->0 as int == (start + k + 7 + d) % 0x1_0000_0000_0000_0000
        }),
{
    lemma_table_load(mem.bytes_at(start as int, 0x40), 0, k);
}

/// The prototype of an item stands in the table at its number; none where the table, the
/// entry or the prototype cannot be read, and number 0 is no item.
pub proof fn lemma_table_of_items(mem: Memory, table_ptr: u64, id: u64)
    ensures
        ({
            let table = word_at(mem, table_ptr as int) as int;
            let item = word_at(mem, table + 8 * id) as int;
            &&& table_item(mem, table_ptr, id) is Some <==> table_ptr != 0 && id != 0 && mem.can_read(
                table_ptr as int,
                8,
            ) && table != 0 && mem.can_read(table + 8 * id, 8) && item != 0 && mem.can_read(item, 64)
            &&& table_item(mem, table_ptr, id) matches Some(p) ==> p == item as u64
        }),
{
    assert(id * 8 == 8 * id);
}

} // verus!
