//! The items that are drawn on belts, in the hands of inserters and on the
//! ground.

use crate::grid::{cell_at, cell_of, Cell, CellSet};
use crate::hooks::MapPos;
use crate::idmap::IdMap;
use crate::view_cull::ViewCull;
use vstd::prelude::*;

verus! {

/// An item that was drawn.
#[derive(Debug)]
pub struct ItemDraw {
    pub key: String,
    /// Its place, in 256ths of a tile, rounded down.
    pub at: MapPos,
    /// Its place in tiles, as the bits of 32-bit floats.
    pub x: u32,
    pub y: u32,
    /// Its height and its size, as the bits of 32-bit floats, where they are not
    /// those of items on belts.
    pub lift: Option<u32>,
    pub size: Option<u32>,
}

/// What an `ItemDraw` holds.
pub ghost struct ItemSpec {
    pub key: Seq<char>,
    pub at: MapPos,
    pub x: u32,
    pub y: u32,
    pub lift: Option<u32>,
    pub size: Option<u32>,
}

impl View for ItemDraw {
    type V = ItemSpec;

    open spec fn view(&self) -> ItemSpec {
        ItemSpec {
            key: self.key@,
            at: self.at,
            x: self.x,
            y: self.y,
            lift: self.lift,
            size: self.size,
        }
    }
}

pub open spec fn item_views(v: Seq<ItemDraw>) -> Seq<ItemSpec> {
    v.map_values(|i: ItemDraw| i@)
}

fn copy_item(i: &ItemDraw) -> (r: ItemDraw)
    ensures
        r@ == i@,
{
    ItemDraw { key: i.key.clone(), at: i.at, x: i.x, y: i.y, lift: i.lift, size: i.size }
}

/// The items of a belt, and the frame in which they were drawn.
#[derive(Debug)]
pub struct BeltItems {
    pub frame: u64,
    pub items: Vec<ItemDraw>,
}

/// The most items that are drawn off belts.
pub const MAX_ITEMS: usize = 16384;

/// The most items on one belt.
pub const MAX_BELT_ITEMS: usize = 256;

/// The most belts.
pub const MAX_BELTS: usize = 16384;

/// No belt holds more items than the cap.
pub open spec fn belts_capped(m: Map<u64, BeltItems>) -> bool {
    forall|k: u64| #[trigger] m.contains_key(k) ==> m[k].items@.len() <= MAX_BELT_ITEMS
}

/// All items that are drawn.
pub struct Items {
    /// Those off belts that were drawn since the last frame.
    pub staged: Vec<ItemDraw>,
    /// Those off belts that are shown.
    pub live: Vec<ItemDraw>,
    /// The frame since which they are shown.
    pub live_frame: u64,
    pub belts: IdMap<BeltItems>,
}

impl Items {
    /// No store outgrows its cap.
    pub open spec fn wf(&self) -> bool {
        &&& self.belts.wf()
        &&& self.staged@.len() <= MAX_ITEMS
        &&& self.live@.len() <= MAX_ITEMS
        &&& self.belts.ids().len() <= MAX_BELTS
        &&& belts_capped(self.belts@)
    }

    pub fn new() -> (r: Items)
        ensures
            r.wf(),
            r.staged@.len() == 0,
            r.live@.len() == 0,
            r.live_frame == 0,
            r.belts@ == Map::<u64, BeltItems>::empty(),
    {
        Items { staged: Vec::new(), live: Vec::new(), live_frame: 0, belts: IdMap::new() }
    }
}

/// One more item, as long as there is room.
pub open spec fn with_item(s: Seq<ItemDraw>, i: ItemDraw, max: int) -> Seq<ItemDraw> {
    if s.len() < max {
        s.push(i)
    } else {
        s
    }
}

/// Takes note of an item. Within the draw of a belt it goes to that belt.
pub fn record_item_ex(items: &mut Items, belt: &mut Option<Vec<ItemDraw>>, item: ItemDraw)
    requires
        old(items).wf(),
    ensures
        final(items).wf(),
        final(items).live == old(items).live,
        final(items).live_frame == old(items).live_frame,
        final(items).belts == old(items).belts,
        match *old(belt) {
            Some(v) => {
                &&& final(items).staged == old(items).staged
                &&& *final(belt) is Some
                &&& (*final(belt))->0@ == with_item(v@, item, MAX_BELT_ITEMS as int)
            },
            None => {
                &&& *final(belt) is None
                &&& final(items).staged@ == with_item(
                    old(items).staged@,
                    item,
                    MAX_ITEMS as int,
                )
            },
        },
{
    match belt {
        Some(v) => {
            if v.len() < MAX_BELT_ITEMS {
                v.push(item);
            }
        },
        None => {
            if items.staged.len() < MAX_ITEMS {
                items.staged.push(item);
            }
        },
    }
}

/// Takes note of an item with the height and the size of items on belts.
pub fn record_item(
    items: &mut Items,
    belt: &mut Option<Vec<ItemDraw>>,
    key: String,
    at: MapPos,
    x: u32,
    y: u32,
)
    requires
        old(items).wf(),
    ensures
        final(items).wf(),
        final(items).live == old(items).live,
        final(items).live_frame == old(items).live_frame,
        final(items).belts == old(items).belts,
        ({
            let item = ItemDraw { key, at, x, y, lift: None, size: None };
            match *old(belt) {
                Some(v) => {
                    &&& final(items).staged == old(items).staged
                    &&& *final(belt) is Some
                    &&& (*final(belt))->0@ == with_item(v@, item, MAX_BELT_ITEMS as int)
                },
                None => {
                    &&& *final(belt) is None
                    &&& final(items).staged@ == with_item(
                        old(items).staged@,
                        item,
                        MAX_ITEMS as int,
                    )
                },
            }
        }),
{
    record_item_ex(items, belt, ItemDraw { key, at, x, y, lift: None, size: None });
}

/// A belt is about to draw its items.
pub fn begin_belt_items(belt: &mut Option<Vec<ItemDraw>>)
    ensures
        *final(belt) is Some,
        (*final(belt))->0@.len() == 0,
{
    *belt = Some(Vec::new());
}

/// The items of one belt: what is above the cap is left out.
pub open spec fn capped(s: Seq<ItemDraw>) -> Seq<ItemDraw> {
    if s.len() > MAX_BELT_ITEMS {
        s.take(MAX_BELT_ITEMS as int)
    } else {
        s
    }
}

/// The belts after one of them drew its items: they replace those of an earlier
/// frame and join those of the same frame, up to the cap, and a draw without items
/// clears the belt.
pub open spec fn belt_drawn(
    before: Map<u64, BeltItems>,
    room: bool,
    belt: u64,
    frame: u64,
    items: Seq<ItemDraw>,
    after: Map<u64, BeltItems>,
) -> bool {
    if items.len() == 0 {
        after == before.remove(belt)
    } else if before.contains_key(belt) || room {
        &&& after.dom() == before.dom().insert(belt)
        &&& forall|k: u64| #[trigger] before.contains_key(k) && k != belt ==> after[k] == before[k]
        &&& after[belt].frame == frame
        &&& after[belt].items@ == if before.contains_key(belt) && before[belt].frame == frame {
            capped(before[belt].items@ + items)
        } else {
            capped(items)
        }
    } else {
        after == before
    }
}

fn cap_items(v: &mut Vec<ItemDraw>)
    ensures
        final(v)@ == capped(old(v)@),
{
    v.truncate(MAX_BELT_ITEMS);
    assert(v@ =~= capped(old(v)@));
}

/// A belt has drawn its items.
pub fn end_belt_items(store: &mut Items, belt: &mut Option<Vec<ItemDraw>>, id: u64, frame: u64)
    requires
        old(store).wf(),
    ensures
        final(store).wf(),
        *final(belt) is None,
        final(store).staged == old(store).staged,
        final(store).live == old(store).live,
        final(store).live_frame == old(store).live_frame,
        match *old(belt) {
            Some(v) => belt_drawn(
                old(store).belts@,
                old(store).belts.ids().len() < MAX_BELTS,
                id,
                frame,
                v@,
                final(store).belts@,
            ),
            None => final(store).belts == old(store).belts,
        },
{
    match belt.take() {
        Some(drawn) => {
            let mut items: Vec<ItemDraw> = drawn;
            let ghost all = items@;
            if items.len() == 0 {
                let gone = store.belts.remove(id);
                return;
            }
            match store.belts.find(id) {
                Some(i) => {
                    proof {
                        store.belts.lemma_rows();
                    }
                    let b: &mut BeltItems = store.belts.value_mut(i);
                    if b.frame == frame {
                        b.items.append(&mut items);
                        cap_items(&mut b.items);
                    } else {
                        cap_items(&mut items);
                        b.frame = frame;
                        b.items = items;
                    }
                    assert(store.belts@.dom() =~= old(store).belts@.dom().insert(id));
                },
                None => {
                    if store.belts.len() < MAX_BELTS {
                        cap_items(&mut items);
                        store.belts.insert(id, BeltItems { frame, items });
                        assert(store.belts@.dom() =~= old(store).belts@.dom().insert(id));
                    }
                },
            }
        },
        None => {},
    }
}

/// A belt's items are replaced by what it drew, those of other belts stay, and
/// what it draws twice in a frame adds up, as far as the cap lets it.
pub proof fn lemma_belt_replaced(
    before: Map<u64, BeltItems>,
    belt: u64,
    frame: u64,
    items: Seq<ItemDraw>,
    mid: Map<u64, BeltItems>,
    more: Seq<ItemDraw>,
    after: Map<u64, BeltItems>,
)
    requires
        belt_drawn(before, true, belt, frame, items, mid),
        belt_drawn(mid, true, belt, frame, more, after),
        items.len() > 0,
        more.len() > 0,
        before.contains_key(belt) ==> before[belt].frame != frame,
    ensures
        mid.contains_key(belt),
        mid[belt].items@ == capped(items),
        after[belt].items@ == capped(items + more),
        after[belt].items@.len() <= MAX_BELT_ITEMS,
        forall|k: u64| #[trigger] before.contains_key(k) && k != belt ==> after.contains_key(k)
            && after[k] == before[k],
{
    assert forall|k: u64| #[trigger] before.contains_key(k) && k != belt implies after.contains_key(
        k,
    ) && after[k] == before[k] by {
        assert(mid.contains_key(k));
    }
    assert(capped(capped(items) + more) =~= capped(items + more));
}

/// The frames are no more than `window` apart.
pub open spec fn within(frame: u64, since: u64, window: u64) -> bool {
    frame <= since || frame - since <= window
}

/// Whether two frames are no more than `window` apart.
pub fn is_within(frame: u64, since: u64, window: u64) -> (r: bool)
    ensures
        r == within(frame, since, window),
{
    frame <= since || frame - since <= window
}

/// Shows the items off belts that were drawn since the last frame. Where there
/// are none the last ones stay, though not for long.
pub fn promote_item_batch(store: &mut Items, frame: u64, hold: u64)
    requires
        old(store).wf(),
    ensures
        final(store).wf(),
        final(store).belts == old(store).belts,
        final(store).staged@.len() == 0,
        ({
            let fresh = old(store).staged@;
            if fresh.len() > 0 {
                final(store).live@ == fresh && final(store).live_frame == frame
            } else {
                &&& final(store).live_frame == old(store).live_frame
                &&& final(store).live@ == if within(frame, old(store).live_frame, hold) {
                    old(store).live@
                } else {
                    Seq::empty()
                }
            }
        }),
{
    if store.staged.len() > 0 {
        store.live.clear();
        store.live.append(&mut store.staged);
        store.live_frame = frame;
    } else if !is_within(frame, store.live_frame, hold) {
        store.live.clear();
    }
}

/// The belts that drew their items not too long ago.
pub open spec fn fresh_belts(m: Map<u64, BeltItems>, frame: u64, hold: u64) -> Map<u64, BeltItems> {
    Map::new(
        |k: u64| m.contains_key(k) && within(frame, m[k].frame, hold),
        |k: u64| m[k],
    )
}

proof fn lemma_take_contains(s: Seq<u64>, i: int)
    requires
        0 <= i < s.len(),
    ensures
        forall|k: u64| #[trigger]
            s.take(i + 1).contains(k) <==> k == s[i] || s.take(i).contains(k),
{
    assert(s.take(i + 1) =~= s.take(i).push(s[i]));
    assert forall|k: u64| #[trigger] s.take(i + 1).contains(k) <==> k == s[i] || s.take(i).contains(
        k,
    ) by {
        if s.take(i).contains(k) {
            let n = s.take(i).index_of(k);
            assert(s.take(i + 1)[n] == k);
        }
        assert(s.take(i + 1)[i] == s[i]);
    }
}

fn stale_belts(store: &Items, frame: u64, hold: u64) -> (r: Vec<u64>)
    requires
        store.wf(),
    ensures
        forall|k: u64| #[trigger]
            store.belts@.contains_key(k) ==> (r@.contains(k) <==> !within(
                frame,
                store.belts@[k].frame,
                hold,
            )),
{
    let mut r: Vec<u64> = Vec::new();
    let mut i: usize = 0;
    proof {
        store.belts.lemma_rows();
    }
    while i < store.belts.len()
        invariant
            store.wf(),
            i <= store.belts.ids().len(),
            store.belts.ids().len() == store.belts.vals().len(),
            forall|j: int|
                0 <= j < i ==> (r@.contains(#[trigger] store.belts.ids()[j]) <==> !within(
                    frame,
                    store.belts.vals()[j].frame,
                    hold,
                )),
            forall|k: u64| #[trigger] r@.contains(k) ==> store.belts.ids().take(i as int).contains(k),
            store.belts.ids().no_duplicates(),
        decreases store.belts.ids().len() - i,
    {
        let ghost before = r@;
        let ghost ids = store.belts.ids();
        let id: u64 = store.belts.id_at(i);
        assert(!before.contains(id)) by {
            if before.contains(id) {
                assert(ids.take(i as int).contains(id));
            }
        }
        if !is_within(frame, store.belts.value_at(i).frame, hold) {
            r.push(id);
            proof {
                lemma_take_contains(r@, before.len() as int);
                assert(r@.take(before.len() as int) =~= before);
                assert(r@.take(before.len() as int + 1) =~= r@);
            }
        }
        proof {
            lemma_take_contains(ids, i as int);
        }
        assert forall|j: int| 0 <= j < i + 1 implies (r@.contains(#[trigger] ids[j]) <==> !within(frame, store.belts.vals()[j].frame, hold)) by {
            if j < i {
                assert(ids[j] != id);
                assert(r@.contains(ids[j]) == before.contains(ids[j]));
            }
        }
        i = i + 1;
    }
    assert forall|k: u64| #[trigger] store.belts@.contains_key(k) implies (r@.contains(k) <==> !within(frame, store.belts@[k].frame, hold)) by {
        let ids = store.belts.ids();
        assert(ids.contains(k));
        let n = choose|n: int| 0 <= n < ids.len() && ids[n] == k;
        assert(store.belts@[ids[n]] == store.belts.vals()[n]);
    }
    r
}

/// Gives up the items of belts that have not drawn them for a while.
pub fn expire_belts(store: &mut Items, frame: u64, hold: u64)
    requires
        old(store).wf(),
    ensures
        final(store).wf(),
        final(store).staged == old(store).staged,
        final(store).live == old(store).live,
        final(store).live_frame == old(store).live_frame,
        final(store).belts@ == fresh_belts(old(store).belts@, frame, hold),
{
    let stale: Vec<u64> = stale_belts(store, frame, hold);
    let mut i: usize = 0;
    while i < stale.len()
        invariant
            store.wf(),
            i <= stale.len(),
            store.staged == old(store).staged,
            store.live == old(store).live,
            store.live_frame == old(store).live_frame,
            forall|k: u64| #[trigger]
                store.belts@.contains_key(k) <==> old(store).belts@.contains_key(k)
                    && !stale@.take(i as int).contains(k),
            forall|k: u64| #[trigger]
                store.belts@.contains_key(k) ==> store.belts@[k] == old(store).belts@[k],
        decreases stale.len() - i,
    {
        let id: u64 = stale[i];
        let gone = store.belts.remove(id);
        proof {
            lemma_take_contains(stale@, i as int);
        }
        i = i + 1;
    }
    assert(stale@.take(i as int) =~= stale@);
    assert(store.belts@ =~= fresh_belts(old(store).belts@, frame, hold));
}

/// The items of a row that are in view.
pub open spec fn in_view(s: Seq<ItemSpec>, cull: ViewCull) -> Seq<ItemSpec> {
    s.filter(|i: ItemSpec| cull.holds(i.at))
}

/// The items of the first `n` belts that are in view, in the order in which the
/// belts are walked.
pub open spec fn belts_in_view(s: Seq<BeltItems>, cull: ViewCull, n: int) -> Seq<ItemSpec>
    decreases n,
{
    if n <= 0 {
        Seq::empty()
    } else {
        belts_in_view(s, cull, n - 1) + in_view(item_views(s[n - 1].items@), cull)
    }
}

fn push_in_view(from: &Vec<ItemDraw>, cull: &ViewCull, out: &mut Vec<ItemDraw>)
    ensures
        item_views(final(out)@) == item_views(old(out)@) + in_view(item_views(from@), *cull),
{
    let ghost keep = |i: ItemSpec| cull.holds(i.at);
    let ghost all = item_views(from@);
    let mut i: usize = 0;
    proof {
        reveal(Seq::filter);
        assert(all.take(0) =~= Seq::<ItemSpec>::empty());
        assert(item_views(out@) =~= item_views(out@) + all.take(0).filter(keep));
    }
    while i < from.len()
        invariant
            i <= from.len(),
            all == item_views(from@),
            keep == (|i: ItemSpec| cull.holds(i.at)),
            item_views(out@) == item_views(old(out)@) + all.take(i as int).filter(keep),
        decreases from.len() - i,
    {
        let ghost before = out@;
        proof {
            reveal(Seq::filter);
            assert(all.take(i + 1).drop_last() =~= all.take(i as int));
            assert(all.take(i + 1).last() == from@[i as int]@);
        }
        if cull.contains(from[i].at) {
            out.push(copy_item(&from[i]));
            assert(item_views(out@) =~= item_views(before).push(from@[i as int]@));
            assert(item_views(out@) =~= item_views(old(out)@) + all.take(i + 1).filter(keep));
        }
        i = i + 1;
    }
    assert(all.take(i as int) =~= all);
}

/// The items that are drawn: those off belts, and those of the belts that drew
/// theirs not too long ago, as far as they are in view.
pub fn item_instances(store: &mut Items, frame: u64, hold: u64, cull: &ViewCull) -> (r: Vec<ItemDraw>)
    requires
        old(store).wf(),
    ensures
        final(store).wf(),
        final(store).staged == old(store).staged,
        final(store).live == old(store).live,
        final(store).live_frame == old(store).live_frame,
        final(store).belts@ == fresh_belts(old(store).belts@, frame, hold),
        item_views(r@) == in_view(item_views(old(store).live@), *cull) + belts_in_view(
            final(store).belts.vals(),
            *cull,
            final(store).belts.vals().len() as int,
        ),
{
    expire_belts(store, frame, hold);
    let mut out: Vec<ItemDraw> = Vec::new();
    assert(item_views(out@) =~= Seq::<ItemSpec>::empty());
    push_in_view(&store.live, cull, &mut out);
    let ghost live = in_view(item_views(store.live@), *cull);
    assert(item_views(out@) =~= live);
    let mut i: usize = 0;
    let n: usize = store.belts.len();
    assert(item_views(out@) =~= live + belts_in_view(store.belts.vals(), *cull, 0));
    while i < n
        invariant
            store.wf(),
            i <= n,
            n == store.belts.vals().len(),
            item_views(out@) == live + belts_in_view(store.belts.vals(), *cull, i as int),
        decreases n - i,
    {
        push_in_view(&store.belts.value_at(i).items, cull, &mut out);
        i = i + 1;
        assert(item_views(out@) =~= live + belts_in_view(store.belts.vals(), *cull, i as int));
    }
    out
}

/// Some item of a row lies on a tile.
pub open spec fn lies_on(s: Seq<ItemDraw>, c: Cell) -> bool {
    exists|i: int| 0 <= i < s.len() && cell_of(#[trigger] s[i].at) == c
}

fn add_cells(from: &Vec<ItemDraw>, cells: &mut CellSet)
    ensures
        forall|c: Cell| #[trigger]
            final(cells)@.contains(c) <==> old(cells)@.contains(c) || lies_on(from@, c),
{
    let mut i: usize = 0;
    while i < from.len()
        invariant
            i <= from.len(),
            forall|c: Cell| #[trigger]
                cells@.contains(c) <==> old(cells)@.contains(c) || lies_on(from@.take(i as int), c),
        decreases from.len() - i,
    {
        let ghost before = cells@;
        let c0: Cell = cell_at(from[i].at);
        cells.insert(c0);
        assert forall|c: Cell| #[trigger] cells@.contains(c) <==> old(cells)@.contains(c) || lies_on(from@.take(i + 1), c) by {
            if lies_on(from@.take(i as int), c) {
                let n = choose|n: int| 0 <= n < i && cell_of(#[trigger] from@.take(i as int)[n].at) == c;
                assert(cell_of(from@.take(i + 1)[n].at) == c);
            }
            if lies_on(from@.take(i + 1), c) {
                let n = choose|n: int| 0 <= n < i + 1 && cell_of(#[trigger] from@.take(i + 1)[n].at) == c;
                if n < i {
                    assert(cell_of(from@.take(i as int)[n].at) == c);
                }
            }
            if c == c0 {
                assert(cell_of(from@.take(i + 1)[i as int].at) == c);
            }
            assert(before.contains(c) <==> old(cells)@.contains(c) || lies_on(from@.take(i as int), c));
        }
        i = i + 1;
    }
    assert(from@.take(i as int) =~= from@);
}

/// The tiles on which items lie.
pub fn item_cells(store: &Items) -> (r: CellSet)
    requires
        store.wf(),
    ensures
        forall|c: Cell| #[trigger]
            r@.contains(c) <==> lies_on(store.live@, c) || exists|k: u64| #[trigger]
                store.belts@.contains_key(k) && lies_on(store.belts@[k].items@, c),
{
    let mut cells: CellSet = CellSet::new();
    add_cells(&store.live, &mut cells);
    let n: usize = store.belts.len();
    let mut i: usize = 0;
    let ghost rows = store.belts.vals();
    while i < n
        invariant
            store.wf(),
            i <= n,
            n == rows.len(),
            rows == store.belts.vals(),
            forall|c: Cell| #[trigger]
                cells@.contains(c) <==> lies_on(store.live@, c) || exists|j: int|
                    0 <= j < i && lies_on((#[trigger] rows[j]).items@, c),
        decreases n - i,
    {
        let ghost before = cells@;
        add_cells(&store.belts.value_at(i).items, &mut cells);
        assert forall|c: Cell| #[trigger] cells@.contains(c) <==> lies_on(store.live@, c) || exists|j: int|
            0 <= j < i + 1 && lies_on((#[trigger] rows[j]).items@, c) by {
            assert(before.contains(c) <==> lies_on(store.live@, c) || exists|j: int|
                0 <= j < i && lies_on((#[trigger] rows[j]).items@, c));
            if lies_on(rows[i as int].items@, c) {
                assert(cells@.contains(c));
            }
        }
        i = i + 1;
    }
    proof {
        store.belts.lemma_rows();
        assert forall|c: Cell| #[trigger] cells@.contains(c) <==> lies_on(store.live@, c) || exists|k: u64| #[trigger]
                store.belts@.contains_key(k) && lies_on(store.belts@[k].items@, c) by {
            if exists|j: int| 0 <= j < n && lies_on((#[trigger] rows[j]).items@, c) {
                let j = choose|j: int| 0 <= j < n && lies_on((#[trigger] rows[j]).items@, c);
                assert(store.belts@.contains_key(store.belts.ids()[j]));
            }
            if exists|k: u64| #[trigger] store.belts@.contains_key(k) && lies_on(store.belts@[k].items@, c) {
                let k = choose|k: u64| #[trigger] store.belts@.contains_key(k) && lies_on(store.belts@[k].items@, c);
                assert(store.belts.ids().contains(k));
                let j = choose|j: int| 0 <= j < n && store.belts.ids()[j] == k;
                assert(rows[j] == store.belts@[k]);
            }
        }
    }
    cells
}

/// Frames count as near each other up to and with the last frame of the window, and
/// a later one than the frame always does.
pub proof fn lemma_window_of_frames(frame: u64, since: u64, window: u64)
    ensures
        within(frame, since, window) <==> frame <= since + window,
{
}

/// What a belt draws replaces what it drew in earlier frames, joins what it drew in
/// the same one, and is cut off behind 256 items. A belt that draws nothing has
/// nothing; a new belt is not taken on where there is no room for it. Other belts
/// are left alone.
pub proof fn lemma_items_of_a_belt(
    before: Map<u64, BeltItems>,
    room: bool,
    belt: u64,
    frame: u64,
    items: Seq<ItemDraw>,
    after: Map<u64, BeltItems>,
    other: u64,
)
    requires
        belt_drawn(before, room, belt, frame, items, after),
        belts_capped(before),
    ensures
        other != belt ==> after.contains_key(other) == before.contains_key(other) && (before.contains_key(other)
            ==> after[other] == before[other]),
        items.len() == 0 ==> !after.contains_key(belt),
        items.len() > 0 && !before.contains_key(belt) && !room ==> !after.contains_key(belt),
        items.len() > 0 && (before.contains_key(belt) || room) ==> {
            let joins = before.contains_key(belt) && before[belt].frame == frame;
            let all = if joins {
                before[belt].items@ + items
            } else {
                items
            };
            let now = after[belt].items@;
            &&& after.contains_key(belt)
            &&& after[belt].frame == frame
            &&& now.is_prefix_of(all)
            &&& all.len() <= 256 ==> now.len() == all.len()
            &&& all.len() > 256 ==> now.len() == 256
        },
{
    if other != belt {
        assert(after.dom().contains(other) == before.dom().contains(other));
    }
    if items.len() > 0 && (before.contains_key(belt) || room) {
        assert(after.dom().contains(belt));
    }
}

/// The items of a belt stay for as long as it drew them no more than `hold` frames
/// ago, and are given up after that.
pub proof fn lemma_belts_expire(m: Map<u64, BeltItems>, frame: u64, hold: u64, belt: u64)
    ensures
        fresh_belts(m, frame, hold).contains_key(belt) <==> m.contains_key(belt) && frame <= m[belt].frame + hold,
        fresh_belts(m, frame, hold).contains_key(belt) ==> fresh_belts(m, frame, hold)[belt] == m[belt],
{
}

/// The items of belts that are drawn are those near the view, of every belt.
pub proof fn lemma_items_near_the_view(s: Seq<BeltItems>, cull: ViewCull, n: int, it: ItemSpec)
    requires
        0 <= n <= s.len(),
    ensures
        ({
            let near = !cull.active || (cull.x0 < 5 * it.at.x < cull.x1 && cull.y0 < 5 * it.at.y < cull.y1);
            belts_in_view(s, cull, n).contains(it) <==> near && exists|b: int|
                0 <= b < n && item_views(#[trigger] s[b].items@).contains(it)
        }),
    decreases n,
{
    if n > 0 {
        lemma_items_near_the_view(s, cull, n - 1, it);
        let row = item_views(s[n - 1].items@);
        let before = belts_in_view(s, cull, n - 1);
        let now = in_view(row, cull);
        lemma_in_view(row, cull, it);
        if belts_in_view(s, cull, n).contains(it) {
            let k = choose|k: int| 0 <= k < (before + now).len() && (before + now)[k] == it;
            if k < before.len() {
                assert(before[k] == it);
            } else {
                assert(now[k - before.len()] == it);
                assert(item_views(s[n - 1].items@).contains(it));
            }
        }
        if before.contains(it) {
            let k = choose|k: int| 0 <= k < before.len() && before[k] == it;
            assert((before + now)[k] == it);
        }
        if now.contains(it) {
            let k = choose|k: int| 0 <= k < now.len() && now[k] == it;
            assert((before + now)[before.len() + k] == it);
        }
    }
}

/// The items of a row that are drawn are those near the view, in their order.
pub proof fn lemma_in_view(s: Seq<ItemSpec>, cull: ViewCull, it: ItemSpec)
    ensures
        ({
            let near = !cull.active || (cull.x0 < 5 * it.at.x < cull.x1 && cull.y0 < 5 * it.at.y < cull.y1);
            in_view(s, cull).contains(it) <==> near && s.contains(it)
        }),
        in_view(s, cull) == s.filter(
            |i: ItemSpec|
                !cull.active || (cull.x0 < i.at.x * 5 < cull.x1 && cull.y0 < i.at.y * 5 < cull.y1),
        ),
    decreases s.len(),
{
    let f = |i: ItemSpec| cull.holds(i.at);
    let g = |i: ItemSpec|
        !cull.active || (cull.x0 < i.at.x * 5 < cull.x1 && cull.y0 < i.at.y * 5 < cull.y1);
    assert(f =~= g);
    reveal(Seq::filter);
    if s.len() > 0 {
        let d = s.drop_last();
        lemma_in_view(d, cull, it);
        let b = in_view(d, cull);
        let w = in_view(s, cull);
        if d.contains(it) {
            let k = choose|k: int| 0 <= k < d.len() && d[k] == it;
            assert(s[k] == it);
        }
        if b.contains(it) {
            let k = choose|k: int| 0 <= k < b.len() && b[k] == it;
            assert(w[k] == it);
        }
        if f(s.last()) {
            assert(w[b.len() as int] == s.last());
            assert(w == b.push(s.last()));
        }
    }
}

/// An item joins those that were drawn before it while they are fewer than there is room
/// for, and is lost otherwise.
pub proof fn lemma_room_for_items(s: Seq<ItemDraw>, i: ItemDraw, max: int)
    requires
        s.len() <= max,
    ensures
        s.len() < max ==> with_item(s, i, max) == s.push(i),
        s.len() == max ==> with_item(s, i, max) == s,
        with_item(s, i, max).len() <= max,
{
}

/// Items lie on a tile where the position of one of them, shown or on a belt, is in it.
pub proof fn lemma_where_items_lie(store: &Items, r: CellSet, c: Cell, i: int, belt: u64)
    requires
        store.wf(),
        call_ensures(item_cells, (store,), r),
    ensures
        0 <= i < store.live@.len() && store.live@[i].at.x as int / 256 == c.x && store.live@[i].at.y as int / 256 == c.y
            ==> r@.contains(c),
        store.belts@.contains_key(belt) && 0 <= i < store.belts@[belt].items@.len()
            && store.belts@[belt].items@[i].at.x as int / 256 == c.x && store.belts@[belt].items@[i].at.y as int / 256
            == c.y ==> r@.contains(c),
        r@.contains(c) ==> (exists|k: int|
            0 <= k < store.live@.len() && (#[trigger] store.live@[k]).at.x as int / 256 == c.x && store.live@[k].at.y as int
                / 256 == c.y) || exists|b: u64, k: int|
            store.belts@.contains_key(b) && 0 <= k < store.belts@[b].items@.len() && (
            #[trigger] store.belts@[b].items@[k]).at.x as int / 256 == c.x && store.belts@[b].items@[k].at.y as int / 256
                == c.y,
{
    if 0 <= i < store.live@.len() && store.live@[i].at.x as int / 256 == c.x && store.live@[i].at.y as int / 256 == c.y {
        assert(cell_of(store.live@[i].at) == c);
        assert(lies_on(store.live@, c));
    }
    if store.belts@.contains_key(belt) && 0 <= i < store.belts@[belt].items@.len() && store.belts@[belt].items@[i].at.x
        as int / 256 == c.x && store.belts@[belt].items@[i].at.y as int / 256 == c.y {
        assert(cell_of(store.belts@[belt].items@[i].at) == c);
        assert(lies_on(store.belts@[belt].items@, c));
    }
    if r@.contains(c) {
        if lies_on(store.live@, c) {
            let k = choose|k: int| 0 <= k < store.live@.len() && cell_of(#[trigger] store.live@[k].at) == c;
            assert(store.live@[k].at.x as int / 256 == c.x);
        } else {
            let b = choose|b: u64| #[trigger] store.belts@.contains_key(b) && lies_on(store.belts@[b].items@, c);
            let s = store.belts@[b].items@;
            let k = choose|k: int| 0 <= k < s.len() && cell_of(#[trigger] s[k].at) == c;
            assert(store.belts@[b].items@[k].at.x as int / 256 == c.x);
        }
    }
}

} // verus!
