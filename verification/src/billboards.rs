//! The rectangles of sprites on the screen.
//!
//! While the view is turned, the rectangle of every sprite that stands for an
//! object is recorded. The game draws a chunk anew only when it has changed, so
//! once a frame the finished recordings go into a store per chunk; what moves is
//! drawn every frame and goes into an overlay that is replaced as a whole.

use crate::frame::{ViewRect, MIN_SPAN};
use vstd::prelude::*;

verus! {

/// The most rectangles that are recorded in a frame.
pub const MAX_RECTS: usize = 131072;

/// The rectangle of one part of a sprite. Its place and its size on the screen
/// are the bits of floats.
#[derive(Clone, Copy, PartialEq, Eq, Structural, Debug)]
pub struct BbRect {
    pub cx: u32,
    pub cy: u32,
    pub hw: u32,
    pub hh: u32,
    /// The position on the map, in 256ths of a tile.
    pub kx: i32,
    pub ky: i32,
    pub player: bool,
    pub unit: bool,
    /// Laid flat on the ground.
    pub flat: bool,
    /// A flying robot.
    pub fly: bool,
    /// Laid flat on a low platform.
    pub elevated_flat: bool,
    /// The view under which it was placed.
    pub stamp: ViewRect,
    /// It moves, and is recorded anew every frame.
    pub special: bool,
    /// The serial number of the entity; 0 for none.
    pub grp: u32,
}

/// Rectangles that were recorded under the same view.
#[derive(Debug)]
pub struct ChunkBatch {
    pub stamp: ViewRect,
    pub rects: Vec<BbRect>,
}

/// What a `ChunkBatch` holds.
#[verifier::ext_equal]
pub ghost struct BatchSpec {
    pub stamp: ViewRect,
    pub rects: Seq<BbRect>,
}

impl View for ChunkBatch {
    type V = BatchSpec;

    open spec fn view(&self) -> BatchSpec {
        BatchSpec { stamp: self.stamp, rects: self.rects@ }
    }
}

/// A batch of the store with its chunk.
#[derive(Debug)]
pub struct StoredChunk {
    pub key: (i32, i32),
    pub batch: ChunkBatch,
}

#[derive(Debug)]
pub struct Billboards {
    pub pending: Vec<BbRect>,
    pub store: Vec<StoredChunk>,
    pub overlay: Option<ChunkBatch>,
    pub last_stamp: Option<ViewRect>,
}

/// The chunk that a position lies in: chunks are 32 tiles wide.
pub open spec fn chunk_of(kx: i32, ky: i32) -> (int, int) {
    (kx as int / 8192, ky as int / 8192)
}

pub open spec fn key_of(c: StoredChunk) -> (int, int) {
    (c.key.0 as int, c.key.1 as int)
}

/// The batch of each chunk.
pub open spec fn store_map(s: Seq<StoredChunk>) -> Map<(int, int), BatchSpec>
    decreases s.len(),
{
    if s.len() == 0 {
        Map::empty()
    } else {
        store_map(s.drop_last()).insert(key_of(s.last()), s.last().batch@)
    }
}

pub open spec fn keys_distinct(s: Seq<StoredChunk>) -> bool {
    forall|i: int, j: int| 0 <= i < j < s.len() ==> key_of(#[trigger] s[i]) != key_of(#[trigger] s[j])
}

pub open spec fn batch_opt(b: Option<ChunkBatch>) -> Option<BatchSpec> {
    match b {
        Some(b) => Some(b@),
        None => None,
    }
}

/// What a `Billboards` holds.
#[verifier::ext_equal]
pub ghost struct BillboardsSpec {
    pub pending: Seq<BbRect>,
    pub store: Map<(int, int), BatchSpec>,
    pub overlay: Option<BatchSpec>,
    pub last_stamp: Option<ViewRect>,
}

impl View for Billboards {
    type V = BillboardsSpec;

    open spec fn view(&self) -> BillboardsSpec {
        BillboardsSpec {
            pending: self.pending@,
            store: store_map(self.store@),
            overlay: batch_opt(self.overlay),
            last_stamp: self.last_stamp,
        }
    }
}

impl Billboards {
    pub open spec fn wf(&self) -> bool {
        keys_distinct(self.store@) && self.pending@.len() <= MAX_RECTS
    }

    pub fn new() -> (r: Billboards)
        ensures
            r.wf(),
            r@ == (BillboardsSpec {
                pending: Seq::empty(),
                store: Map::empty(),
                overlay: None,
                last_stamp: None,
            }),
    {
        Billboards { pending: Vec::new(), store: Vec::new(), overlay: None, last_stamp: None }
    }
}

/// Records the rectangle of a placed sprite; what is beyond the limit is lost.
pub fn record(b: &mut Billboards, rect: BbRect)
    requires
        old(b).wf(),
    ensures
        final(b).wf(),
        final(b)@ == if old(b)@.pending.len() < MAX_RECTS {
            (BillboardsSpec { pending: old(b)@.pending.push(rect), ..old(b)@ })
        } else {
            old(b)@
        },
{
    if b.pending.len() < MAX_RECTS {
        b.pending.push(rect);
    }
}

fn floor_chunk(k: i32) -> (r: i32)
    ensures
        r == k as int / 8192,
{
    let up: i64 = k as i64 + 0x8000_0000;
    (up / 8192 - 262144) as i32
}

/// The chunk that a rectangle's position lies in.
pub fn chunk_key(r: &BbRect) -> (k: (i32, i32))
    ensures
        (k.0 as int, k.1 as int) == chunk_of(r.kx, r.ky),
{
    (floor_chunk(r.kx), floor_chunk(r.ky))
}

/// Drops everything but the last view.
pub fn clear_store(b: &mut Billboards)
    requires
        old(b).wf(),
    ensures
        final(b).wf(),
        final(b)@ == (BillboardsSpec {
            pending: Seq::empty(),
            store: Map::empty(),
            overlay: None,
            last_stamp: old(b)@.last_stamp,
        }),
{
    b.store = Vec::new();
    b.pending = Vec::new();
    b.overlay = None;
}

/// A number divided by 32, towards zero.
pub open spec fn eighths(raw: int) -> int {
    if raw >= 0 {
        raw / 32
    } else {
        -((-raw) / 32)
    }
}

/// A view to an eighth of a tile.
pub open spec fn stamp_key(s: ViewRect) -> (int, int, int, int) {
    (
        eighths(s.left as int),
        eighths(s.top as int),
        eighths(s.span_x as int),
        eighths(s.span_y as int),
    )
}

/// The view of the rectangle is one.
pub open spec fn stamped(r: BbRect) -> bool {
    r.stamp.span_x > MIN_SPAN
}

/// The rectangle was placed under the view `k`.
pub open spec fn under_key(r: BbRect, k: (int, int, int, int)) -> bool {
    stamped(r) && stamp_key(r.stamp) == k
}

/// How many rectangles were placed under the view `k`.
pub open spec fn votes(s: Seq<BbRect>, k: (int, int, int, int)) -> nat
    decreases s.len(),
{
    if s.len() == 0 {
        0
    } else {
        votes(s.drop_last(), k) + if under_key(s.last(), k) {
            1nat
        } else {
            0nat
        }
    }
}

/// The rectangles that were placed under the view `k`.
pub open spec fn placed_under(s: Seq<BbRect>, k: (int, int, int, int)) -> Seq<BbRect> {
    s.filter(|r: BbRect| under_key(r, k))
}

/// No view has more votes than `k`.
pub open spec fn most_votes(s: Seq<BbRect>, k: (int, int, int, int)) -> bool {
    &&& votes(s, k) > 0
    &&& forall|o: (int, int, int, int)| #[trigger] votes(s, o) <= votes(s, k)
}

/// `out` is what remains of `s` when only the rectangles of the most common view
/// are kept: their view is that of the last one kept. Where no rectangle has a
/// view, all of them are kept under the view `fallback`.
pub open spec fn majority(s: Seq<BbRect>, fallback: ViewRect, out: BatchSpec) -> bool {
    if exists|i: int| 0 <= i < s.len() && stamped(#[trigger] s[i]) {
        exists|k: (int, int, int, int)| #[trigger]
            most_votes(s, k) && out.rects == placed_under(s, k) && out.rects.len() > 0 && out.stamp
                == out.rects.last().stamp
    } else {
        out.rects == s && out.stamp == fallback
    }
}

fn eighth(raw: i32) -> (r: i32)
    ensures
        r == eighths(raw as int),
{
    if raw >= 0 {
        raw / 32
    } else {
        let up: i64 = -(raw as i64);
        (-(up / 32)) as i32
    }
}

fn key_matches(a: &ViewRect, b: &ViewRect) -> (r: bool)
    ensures
        r == (stamp_key(*a) == stamp_key(*b)),
{
    eighth(a.left) == eighth(b.left) && eighth(a.top) == eighth(b.top) && eighth(a.span_x) == eighth(
        b.span_x,
    ) && eighth(a.span_y) == eighth(b.span_y)
}

/// Finds the tally of a view.
fn find_tally(tallies: &Vec<(ViewRect, usize)>, like: &ViewRect) -> (r: Option<usize>)
    ensures
        r matches Some(t) ==> t < tallies.len() && stamp_key(tallies@[t as int].0) == stamp_key(*like),
        r is None ==> forall|t: int|
            0 <= t < tallies.len() ==> stamp_key((#[trigger] tallies@[t]).0) != stamp_key(*like),
{
    let mut t: usize = 0;
    while t < tallies.len()
        invariant
            t <= tallies.len(),
            forall|k: int| 0 <= k < t ==> stamp_key((#[trigger] tallies@[k]).0) != stamp_key(*like),
        decreases tallies.len() - t,
    {
        if key_matches(&tallies[t].0, like) {
            return Some(t);
        }
        t = t + 1;
    }
    None
}

/// Counts the votes of every view that comes up.
fn tally(s: &Vec<BbRect>) -> (r: Vec<(ViewRect, usize)>)
    ensures
        forall|t: int| 0 <= t < r.len() ==> (#[trigger] r@[t]).1 == votes(s@, stamp_key(r@[t].0)),
        forall|j: int|
            0 <= j < s.len() && stamped(#[trigger] s@[j]) ==> exists|t: int|
                0 <= t < r.len() && stamp_key((#[trigger] r@[t]).0) == stamp_key(s@[j].stamp),
{
    let mut r: Vec<(ViewRect, usize)> = Vec::new();
    let mut i: usize = 0;
    while i < s.len()
        invariant
            i <= s.len(),
            forall|t: int|
                0 <= t < r.len() ==> (#[trigger] r@[t]).1 == votes(s@.take(i as int), stamp_key(r@[t].0)),
            forall|t: int| 0 <= t < r.len() ==> (#[trigger] r@[t]).1 <= i,
            forall|a: int, b: int|
                0 <= a < b < r.len() ==> stamp_key((#[trigger] r@[a]).0) != stamp_key(
                    (#[trigger] r@[b]).0,
                ),
            forall|j: int|
                0 <= j < i && stamped(#[trigger] s@[j]) ==> exists|t: int|
                    0 <= t < r.len() && stamp_key((#[trigger] r@[t]).0) == stamp_key(s@[j].stamp),
        decreases s.len() - i,
    {
        let ghost r0 = r@;
        let ghost t1 = s@.take(i + 1);
        assert(t1.drop_last() =~= s@.take(i as int));
        assert(t1.last() == s@[i as int]);
        if s[i].stamp.span_x > MIN_SPAN {
            let here: ViewRect = s[i].stamp;
            match find_tally(&r, &here) {
                Some(t) => {
                    let n: usize = r[t].1;
                    let first: ViewRect = r[t].0;
                    r.set(t, (first, n + 1));
                    proof {
                        assert forall|a: int| 0 <= a < r@.len() implies (#[trigger] r@[a]).1 == votes(t1, stamp_key(r@[a].0)) by {
                            assert(r0[a].1 == votes(s@.take(i as int), stamp_key(r0[a].0)));
                            if a < t {
                                assert(stamp_key(r0[a].0) != stamp_key(r0[t as int].0));
                            } else if a > t {
                                assert(stamp_key(r0[t as int].0) != stamp_key(r0[a].0));
                            }
                        }
                        assert forall|j: int| 0 <= j < i + 1 && stamped(#[trigger] s@[j]) implies exists|a: int|
                            0 <= a < r@.len() && stamp_key((#[trigger] r@[a]).0) == stamp_key(s@[j].stamp) by {
                            if j == i {
                                assert(stamp_key(r@[t as int].0) == stamp_key(here));
                            } else {
                                let a = choose|a: int| 0 <= a < r0.len() && stamp_key((#[trigger] r0[a]).0) == stamp_key(s@[j].stamp);
                                assert(stamp_key(r@[a].0) == stamp_key(s@[j].stamp));
                            }
                        }
                    }
                },
                None => {
                    proof {
                        lemma_votes_from(s@.take(i as int), stamp_key(here));
                        if votes(s@.take(i as int), stamp_key(here)) > 0 {
                            let j = choose|j: int| 0 <= j < i && under_key(#[trigger] s@.take(i as int)[j], stamp_key(here));
                            assert(stamped(s@[j]));
                        }
                    }
                    r.push((here, 1));
                    proof {
                        assert forall|j: int| 0 <= j < i + 1 && stamped(#[trigger] s@[j]) implies exists|a: int|
                            0 <= a < r@.len() && stamp_key((#[trigger] r@[a]).0) == stamp_key(s@[j].stamp) by {
                            if j == i {
                                assert(stamp_key(r@[r0.len() as int].0) == stamp_key(here));
                            } else {
                                let a = choose|a: int| 0 <= a < r0.len() && stamp_key((#[trigger] r0[a]).0) == stamp_key(s@[j].stamp);
                                assert(stamp_key(r@[a].0) == stamp_key(s@[j].stamp));
                            }
                        }
                        assert forall|a: int| 0 <= a < r@.len() implies (#[trigger] r@[a]).1 == votes(t1, stamp_key(r@[a].0)) by {
                            if a < r0.len() {
                                assert(r0[a].1 == votes(s@.take(i as int), stamp_key(r0[a].0)));
                            }
                        }
                    }
                },
            }
        }
        i = i + 1;
    }
    assert(s@.take(i as int) =~= s@);
    r
}

proof fn lemma_votes_from(s: Seq<BbRect>, k: (int, int, int, int))
    ensures
        votes(s, k) > 0 <==> exists|i: int| 0 <= i < s.len() && under_key(#[trigger] s[i], k),
        votes(s, k) == placed_under(s, k).len(),
    decreases s.len(),
{
    reveal(Seq::filter);
    if s.len() > 0 {
        lemma_votes_from(s.drop_last(), k);
        if under_key(s.last(), k) {
            assert(under_key(s[s.len() - 1], k));
        }
        if exists|i: int| 0 <= i < s.len() && under_key(#[trigger] s[i], k) {
            let i = choose|i: int| 0 <= i < s.len() && under_key(#[trigger] s[i], k);
            if i < s.len() - 1 {
                assert(under_key(s.drop_last()[i], k));
            }
        }
        if exists|i: int| 0 <= i < s.len() - 1 && under_key(#[trigger] s.drop_last()[i], k) {
            let i = choose|i: int| 0 <= i < s.len() - 1 && under_key(#[trigger] s.drop_last()[i], k);
            assert(under_key(s[i], k));
        }
    }
}

/// Keeps the rectangles of the most common view. Rectangles of a neighbouring
/// frame are dropped for one frame, instead of spoiling the batch.
pub fn majority_stamp(rects: Vec<BbRect>, fallback: ViewRect) -> (r: ChunkBatch)
    ensures
        majority(rects@, fallback, r@),
        rects@.len() > 0 ==> r@.rects.len() > 0,
{
    let ghost s = rects@;
    let tallies: Vec<(ViewRect, usize)> = tally(&rects);
    let mut best: Option<usize> = None;
    let mut best_n: usize = 0;
    let mut i: usize = 0;
    while i < tallies.len()
        invariant
            i <= tallies.len(),
            best is None ==> best_n == 0 && forall|t: int| 0 <= t < i ==> (#[trigger] tallies@[t]).1 == 0,
            best matches Some(b) ==> {
                &&& b < i
                &&& best_n == tallies@[b as int].1
                &&& best_n > 0
                &&& forall|t: int| 0 <= t < i ==> (#[trigger] tallies@[t]).1 <= best_n
            },
        decreases tallies.len() - i,
    {
        if tallies[i].1 > best_n {
            best = Some(i);
            best_n = tallies[i].1;
        }
        i = i + 1;
    }
    proof {
        assert forall|j: int| 0 <= j < s.len() && stamped(#[trigger] s[j]) implies votes(s, stamp_key(s[j].stamp)) <= best_n
            && best_n > 0 by {
            let t = choose|t: int| 0 <= t < tallies@.len() && stamp_key((#[trigger] tallies@[t]).0) == stamp_key(s[j].stamp);
            lemma_votes_from(s, stamp_key(s[j].stamp));
            assert(under_key(s[j], stamp_key(s[j].stamp)));
        }
    }
    match best {
        None => {
            ChunkBatch { stamp: fallback, rects }
        },
        Some(b) => {
            let like: ViewRect = tallies[b].0;
            let ghost k = stamp_key(like);
            let mut out: Vec<BbRect> = Vec::new();
            let mut stamp: ViewRect = fallback;
            let mut i: usize = 0;
            while i < rects.len()
                invariant
                    i <= rects.len(),
                    s == rects@,
                    k == stamp_key(like),
                    out@ == placed_under(s.take(i as int), k),
                    out@.len() > 0 ==> stamp == out@.last().stamp,
                decreases rects.len() - i,
            {
                proof {
                    reveal(Seq::filter);
                    assert(s.take(i + 1).drop_last() =~= s.take(i as int));
                }
                if rects[i].stamp.span_x > MIN_SPAN && key_matches(&rects[i].stamp, &like) {
                    out.push(rects[i]);
                    stamp = rects[i].stamp;
                }
                i = i + 1;
            }
            proof {
                assert(s.take(i as int) =~= s);
                lemma_votes_from(s, k);
                assert forall|o: (int, int, int, int)| #[trigger] votes(s, o) <= votes(s, k) by {
                    lemma_votes_from(s, o);
                    if votes(s, o) > 0 {
                        let j = choose|j: int| 0 <= j < s.len() && under_key(#[trigger] s[j], o);
                        assert(stamped(s[j]) && stamp_key(s[j].stamp) == o);
                    }
                }
                assert(most_votes(s, k));
                let j = choose|j: int| 0 <= j < s.len() && under_key(#[trigger] s[j], k);
                assert(stamped(s[j]));
            }
            ChunkBatch { stamp, rects: out }
        },
    }
}

/// Whether a batch is of one view: all its rectangles were placed under the view
/// of the batch, to an eighth of a tile.
pub proof fn lemma_majority_agrees(s: Seq<BbRect>, fallback: ViewRect, out: BatchSpec, i: int)
    requires
        majority(s, fallback, out),
        exists|j: int| 0 <= j < s.len() && stamped(#[trigger] s[j]),
        0 <= i < out.rects.len(),
    ensures
        stamped(out.rects[i]),
        stamp_key(out.rects[i].stamp) == stamp_key(out.stamp),
        s.contains(out.rects[i]),
{
    let k = choose|k: (int, int, int, int)| #[trigger]
        most_votes(s, k) && out.rects == placed_under(s, k) && out.rects.len() > 0 && out.stamp
            == out.rects.last().stamp;
    lemma_kept(s, k, i);
    lemma_kept(s, k, out.rects.len() - 1);
}

proof fn lemma_kept(s: Seq<BbRect>, k: (int, int, int, int), i: int)
    requires
        0 <= i < placed_under(s, k).len(),
    ensures
        under_key(placed_under(s, k)[i], k),
        s.contains(placed_under(s, k)[i]),
    decreases s.len(),
{
    reveal(Seq::filter);
    let d = s.drop_last();
    let out = placed_under(s, k);
    if under_key(s.last(), k) && i == out.len() - 1 {
        assert(s[s.len() - 1] == out[i]);
    } else {
        lemma_kept(d, k, i);
        let j = choose|j: int| 0 <= j < d.len() && d[j] == placed_under(d, k)[i];
        assert(s[j] == out[i]);
    }
}

/// The centre of a view, in 512ths of a tile.
pub open spec fn center2(from: i32, span: i32) -> int {
    2 * from + span
}

pub open spec fn distance(a: int, b: int) -> int {
    if a >= b {
        a - b
    } else {
        b - a
    }
}

/// The view has jumped: its centre moved by more than a quarter of the view, or
/// its width changed by more than the factor 1.3.
pub open spec fn jumped(last: ViewRect, now: ViewRect) -> bool {
    &&& now.span_x > MIN_SPAN
    &&& last.span_x > MIN_SPAN
    &&& {
        ||| 2 * distance(center2(now.left, now.span_x), center2(last.left, last.span_x)) > now.span_x
        ||| 2 * distance(center2(now.top, now.span_y), center2(last.top, last.span_y)) > now.span_y
        ||| 10 * now.span_x > 13 * last.span_x
        ||| 10 * last.span_x > 13 * now.span_x
    }
}

fn apart_by(a: i64, b: i64) -> (r: i64)
    requires
        -0x8_0000_0000 <= a <= 0x8_0000_0000,
        -0x8_0000_0000 <= b <= 0x8_0000_0000,
    ensures
        r == distance(a as int, b as int),
{
    if a >= b {
        a - b
    } else {
        b - a
    }
}

fn has_jumped(last: &ViewRect, now: &ViewRect) -> (r: bool)
    ensures
        r == jumped(*last, *now),
{
    if !(now.span_x > MIN_SPAN && last.span_x > MIN_SPAN) {
        return false;
    }
    let dx: i64 = apart_by(
        2 * (now.left as i64) + now.span_x as i64,
        2 * (last.left as i64) + last.span_x as i64,
    );
    let dy: i64 = apart_by(
        2 * (now.top as i64) + now.span_y as i64,
        2 * (last.top as i64) + last.span_y as i64,
    );
    2 * dx > now.span_x as i64 || 2 * dy > now.span_y as i64 || 10 * (now.span_x as i64) > 13 * (
    last.span_x as i64) || 10 * (last.span_x as i64) > 13 * (now.span_x as i64)
}

/// How far outside the view chunks are kept: 40 tiles.
pub const KEEP_MARGIN: i64 = 10240;

/// The chunk lies within the margin around the view.
pub open spec fn near_view(key: (int, int), v: ViewRect) -> bool {
    &&& (key.0 + 1) * 8192 > v.left - KEEP_MARGIN
    &&& key.0 * 8192 < v.left + v.span_x + KEEP_MARGIN
    &&& (key.1 + 1) * 8192 > v.top - KEEP_MARGIN
    &&& key.1 * 8192 < v.top + v.span_y + KEEP_MARGIN
}

/// Chunks are evicted only under a proper view.
pub open spec fn evicts(v: ViewRect) -> bool {
    v.span_x > MIN_SPAN && v.span_y > MIN_SPAN
}

/// The rectangles of what moves.
pub open spec fn specials_of(s: Seq<BbRect>) -> Seq<BbRect> {
    s.filter(|r: BbRect| r.special)
}

/// The rectangles of what does not move, of one chunk.
pub open spec fn chunk_rects(s: Seq<BbRect>, key: (int, int)) -> Seq<BbRect> {
    s.filter(|r: BbRect| !r.special && chunk_of(r.kx, r.ky) == key)
}

/// The store that a frame leaves: nothing of before where the view has jumped;
/// every chunk of which something was recorded takes its new batch; and chunks
/// far outside the view are gone.
pub open spec fn stored_after(
    before: Map<(int, int), BatchSpec>,
    after: Map<(int, int), BatchSpec>,
    fresh: Seq<BbRect>,
    jump: bool,
    stamp: ViewRect,
) -> bool {
    forall|key: (int, int)| #![trigger after.contains_key(key)]
        {
            let keep = evicts(stamp) ==> near_view(key, stamp);
            let new = chunk_rects(fresh, key);
            &&& after.contains_key(key) <==> keep && (new.len() > 0 || !jump && before.contains_key(
                key,
            ))
            &&& after.contains_key(key) ==> if new.len() > 0 {
                majority(new, stamp, after[key])
            } else {
                after[key] == before[key]
            }
        }
}

/// What a frame leaves.
pub open spec fn published(b: BillboardsSpec, a: BillboardsSpec, stamp: ViewRect) -> bool {
    let jump = b.last_stamp is Some && jumped(b.last_stamp->0, stamp);
    &&& a.pending.len() == 0
    &&& a.last_stamp == if stamp.span_x > MIN_SPAN {
        Some(stamp)
    } else {
        b.last_stamp
    }
    &&& if b.pending.len() > 0 {
        a.overlay is Some && majority(specials_of(b.pending), stamp, a.overlay->0)
    } else if jump {
        a.overlay is None
    } else {
        a.overlay == b.overlay
    }
    &&& stored_after(b.store, a.store, b.pending, jump, stamp)
}

proof fn lemma_store(s: Seq<StoredChunk>, key: (int, int))
    requires
        keys_distinct(s),
    ensures
        store_map(s).contains_key(key) <==> exists|i: int| 0 <= i < s.len() && key_of(#[trigger] s[i]) == key,
        forall|i: int|
            0 <= i < s.len() && key_of(#[trigger] s[i]) == key ==> store_map(s)[key] == s[i].batch@,
    decreases s.len(),
{
    if s.len() > 0 {
        let d = s.drop_last();
        assert forall|i: int, j: int| 0 <= i < j < d.len() implies key_of(#[trigger] d[i]) != key_of(#[trigger] d[j]) by {
            assert(d[i] == s[i] && d[j] == s[j]);
        }
        lemma_store(d, key);
        if key_of(s.last()) == key {
            assert(key_of(s[s.len() - 1]) == key);
        }
        assert forall|i: int| 0 <= i < s.len() && key_of(#[trigger] s[i]) == key implies store_map(s)[key] == s[i].batch@ by {
            if i < s.len() - 1 {
                assert(d[i] == s[i]);
                assert(key_of(s[i]) != key_of(s[s.len() - 1]));
            }
        }
        if exists|i: int| 0 <= i < d.len() && key_of(#[trigger] d[i]) == key {
            let i = choose|i: int| 0 <= i < d.len() && key_of(#[trigger] d[i]) == key;
            assert(key_of(s[i]) == key);
        }
        if exists|i: int| 0 <= i < s.len() && key_of(#[trigger] s[i]) == key {
            let i = choose|i: int| 0 <= i < s.len() && key_of(#[trigger] s[i]) == key;
            if i < s.len() - 1 {
                assert(key_of(d[i]) == key);
            }
        }
    }
}

fn find_chunk(store: &Vec<StoredChunk>, key: (i32, i32)) -> (r: Option<usize>)
    ensures
        r matches Some(i) ==> i < store.len() && store@[i as int].key == key,
        r is None ==> forall|i: int| 0 <= i < store.len() ==> (#[trigger] store@[i]).key != key,
{
    let mut i: usize = 0;
    while i < store.len()
        invariant
            i <= store.len(),
            forall|k: int| 0 <= k < i ==> (#[trigger] store@[k]).key != key,
        decreases store.len() - i,
    {
        if store[i].key.0 == key.0 && store[i].key.1 == key.1 {
            return Some(i);
        }
        i = i + 1;
    }
    None
}

/// Puts a batch into the store; the chunk's last batch is gone.
fn upsert(store: &mut Vec<StoredChunk>, key: (i32, i32), batch: ChunkBatch)
    requires
        keys_distinct(old(store)@),
    ensures
        keys_distinct(final(store)@),
        store_map(final(store)@) == store_map(old(store)@).insert(
            (key.0 as int, key.1 as int),
            batch@,
        ),
{
    let ghost before = store@;
    let ghost gk = (key.0 as int, key.1 as int);
    let ghost bv = batch@;
    let i: usize = match find_chunk(store, key) {
        Some(at) => {
            store.set(at, StoredChunk { key, batch });
            at
        },
        None => {
            let at: usize = store.len();
            store.push(StoredChunk { key, batch });
            at
        },
    };
    proof {
        let after = store@;
        assert(keys_distinct(after)) by {
            assert forall|a: int, b: int| 0 <= a < b < after.len() implies key_of(#[trigger] after[a]) != key_of(#[trigger] after[b]) by {
                if a < before.len() && b < before.len() {
                    assert(key_of(after[a]) == key_of(before[a]));
                    assert(key_of(after[b]) == key_of(before[b]));
                }
            }
        }
        assert forall|k: (int, int)| #![trigger store_map(after).contains_key(k)]
            (store_map(after).contains_key(k) <==> store_map(before).insert(gk, bv).contains_key(k))
            && (store_map(after).contains_key(k) ==> store_map(after)[k] == store_map(before).insert(gk, bv)[k]) by {
            lemma_store(before, k);
            lemma_store(after, k);
            if k == gk {
                assert(key_of(after[i as int]) == gk);
                assert(after[i as int].batch@ == bv);
            } else {
                if exists|a: int| 0 <= a < before.len() && key_of(#[trigger] before[a]) == k {
                    let a = choose|a: int| 0 <= a < before.len() && key_of(#[trigger] before[a]) == k;
                    assert(after[a] == before[a]);
                    assert(key_of(after[a]) == k);
                }
                if exists|a: int| 0 <= a < after.len() && key_of(#[trigger] after[a]) == k {
                    let a = choose|a: int| 0 <= a < after.len() && key_of(#[trigger] after[a]) == k;
                    assert(after[a] == before[a]);
                    assert(key_of(before[a]) == k);
                }
            }
        }
        assert(store_map(after) =~= store_map(before).insert(gk, bv));
    }
}

/// The rectangles of one chunk.
#[derive(Debug)]
pub struct ChunkRects {
    pub key: (i32, i32),
    pub rects: Vec<BbRect>,
}

pub open spec fn group_key(g: ChunkRects) -> (int, int) {
    (g.key.0 as int, g.key.1 as int)
}

/// The groups are those of all chunks of which something was recorded.
pub open spec fn groups_of(g: Seq<ChunkRects>, fresh: Seq<BbRect>) -> bool {
    &&& forall|i: int, j: int|
        0 <= i < j < g.len() ==> group_key(#[trigger] g[i]) != group_key(#[trigger] g[j])
    &&& forall|i: int|
        0 <= i < g.len() ==> (#[trigger] g[i]).rects@ == chunk_rects(fresh, group_key(g[i]))
            && g[i].rects@.len() > 0
    &&& forall|k: (int, int)|
        (#[trigger] chunk_rects(fresh, k)).len() > 0 ==> exists|i: int|
            0 <= i < g.len() && group_key(#[trigger] g[i]) == k
}

fn find_group(g: &Vec<ChunkRects>, key: (i32, i32)) -> (r: Option<usize>)
    ensures
        r matches Some(i) ==> i < g.len() && g@[i as int].key == key,
        r is None ==> forall|i: int| 0 <= i < g.len() ==> (#[trigger] g@[i]).key != key,
{
    let mut i: usize = 0;
    while i < g.len()
        invariant
            i <= g.len(),
            forall|k: int| 0 <= k < i ==> (#[trigger] g@[k]).key != key,
        decreases g.len() - i,
    {
        if g[i].key.0 == key.0 && g[i].key.1 == key.1 {
            return Some(i);
        }
        i = i + 1;
    }
    None
}

proof fn lemma_chunk_rects_step(fresh: Seq<BbRect>, i: int, k: (int, int))
    requires
        0 <= i < fresh.len(),
    ensures
        chunk_rects(fresh.take(i + 1), k) == if !fresh[i].special && chunk_of(
            fresh[i].kx,
            fresh[i].ky,
        ) == k {
            chunk_rects(fresh.take(i), k).push(fresh[i])
        } else {
            chunk_rects(fresh.take(i), k)
        },
        specials_of(fresh.take(i + 1)) == if fresh[i].special {
            specials_of(fresh.take(i)).push(fresh[i])
        } else {
            specials_of(fresh.take(i))
        },
{
    reveal(Seq::filter);
    assert(fresh.take(i + 1).drop_last() =~= fresh.take(i));
    assert(fresh.take(i + 1).last() == fresh[i]);
}

/// Sorts the rectangles by chunk, and takes out those of what moves.
fn split(fresh: &Vec<BbRect>) -> (r: (Vec<BbRect>, Vec<ChunkRects>))
    ensures
        r.0@ == specials_of(fresh@),
        groups_of(r.1@, fresh@),
{
    let mut specials: Vec<BbRect> = Vec::new();
    let mut g: Vec<ChunkRects> = Vec::new();
    let ghost f = fresh@;
    let mut i: usize = 0;
    proof {
        reveal(Seq::filter);
        assert(f.take(0) =~= Seq::<BbRect>::empty());
    }
    while i < fresh.len()
        invariant
            i <= fresh.len(),
            f == fresh@,
            specials@ == specials_of(f.take(i as int)),
            groups_of(g@, f.take(i as int)),
        decreases fresh.len() - i,
    {
        let r: BbRect = fresh[i];
        let ghost g0 = g@;
        let ghost t0 = f.take(i as int);
        let ghost t1 = f.take(i + 1);
        proof {
            assert forall|k: (int, int)| #[trigger] chunk_rects(t1, k) == if !r.special && chunk_of(r.kx, r.ky) == k {
                chunk_rects(t0, k).push(r)
            } else {
                chunk_rects(t0, k)
            } by {
                lemma_chunk_rects_step(f, i as int, k);
            }
            lemma_chunk_rects_step(f, i as int, (0, 0));
        }
        if r.special {
            specials.push(r);
            assert(groups_of(g@, t1)) by {
                assert forall|k: (int, int)| (#[trigger] chunk_rects(t1, k)).len() > 0 implies exists|a: int|
                    0 <= a < g@.len() && group_key(#[trigger] g@[a]) == k by {
                    assert(chunk_rects(t0, k).len() > 0);
                }
                assert forall|a: int| 0 <= a < g@.len() implies (#[trigger] g@[a]).rects@ == chunk_rects(t1, group_key(g@[a])) && g@[a].rects@.len() > 0 by {
                    assert(chunk_rects(t1, group_key(g@[a])) == chunk_rects(t0, group_key(g@[a])));
                }
            }
        } else {
            let key: (i32, i32) = chunk_key(&r);
            let ghost gk = (key.0 as int, key.1 as int);
            match find_group(&g, key) {
                Some(at) => {
                    let mut one: ChunkRects = g.remove(at);
                    one.rects.push(r);
                    g.insert(at, one);
                    proof {
                        assert(g@ =~= g0.update(at as int, one));
                        assert forall|a: int| 0 <= a < g@.len() implies (#[trigger] g@[a]).rects@ == chunk_rects(t1, group_key(g@[a])) && g@[a].rects@.len() > 0 by {
                            assert(g0[a].rects@ == chunk_rects(t0, group_key(g0[a])));
                            assert(chunk_rects(t1, group_key(g@[a])).len() >= 0);
                            if a != at {
                                assert(group_key(g0[a]) != group_key(g0[at as int])) by {
                                    if a < at {
                                    } else {
                                        assert(group_key(g0[at as int]) != group_key(g0[a]));
                                    }
                                }
                            }
                        }
                        assert forall|a: int, b: int| 0 <= a < b < g@.len() implies group_key(#[trigger] g@[a]) != group_key(#[trigger] g@[b]) by {
                            assert(group_key(g@[a]) == group_key(g0[a]));
                            assert(group_key(g@[b]) == group_key(g0[b]));
                        }
                        assert forall|k: (int, int)| (#[trigger] chunk_rects(t1, k)).len() > 0 implies exists|a: int|
                            0 <= a < g@.len() && group_key(#[trigger] g@[a]) == k by {
                            if k == gk {
                                assert(group_key(g@[at as int]) == k);
                            } else {
                                assert(chunk_rects(t0, k).len() > 0);
                                let a = choose|a: int| 0 <= a < g0.len() && group_key(#[trigger] g0[a]) == k;
                                assert(group_key(g@[a]) == k);
                            }
                        }
                    }
                },
                None => {
                    let mut rects: Vec<BbRect> = Vec::new();
                    rects.push(r);
                    proof {
                        if chunk_rects(t0, gk).len() > 0 {
                            let a = choose|a: int| 0 <= a < g0.len() && group_key(#[trigger] g0[a]) == gk;
                            assert(g0[a].key == key);
                        }
                        assert(chunk_rects(t1, gk) =~= rects@);
                    }
                    g.push(ChunkRects { key, rects });
                    proof {
                        let n = g0.len() as int;
                        assert forall|a: int| 0 <= a < g@.len() implies (#[trigger] g@[a]).rects@ == chunk_rects(t1, group_key(g@[a])) && g@[a].rects@.len() > 0 by {
                            if a < n {
                                assert(g@[a] == g0[a]);
                                assert(g0[a].key != key);
                                assert(chunk_rects(t1, group_key(g@[a])).len() >= 0);
                            }
                        }
                        assert forall|a: int, b: int| 0 <= a < b < g@.len() implies group_key(#[trigger] g@[a]) != group_key(#[trigger] g@[b]) by {
                            assert(g@[a] == g0[a]);
                            if b < n {
                                assert(g@[b] == g0[b]);
                            } else {
                                assert(g0[a].key != key);
                            }
                        }
                        assert forall|k: (int, int)| (#[trigger] chunk_rects(t1, k)).len() > 0 implies exists|a: int|
                            0 <= a < g@.len() && group_key(#[trigger] g@[a]) == k by {
                            if k == gk {
                                assert(group_key(g@[n]) == k);
                            } else {
                                assert(chunk_rects(t0, k).len() > 0);
                                let a = choose|a: int| 0 <= a < g0.len() && group_key(#[trigger] g0[a]) == k;
                                assert(group_key(g@[a]) == k);
                            }
                        }
                    }
                },
            }
        }
        i = i + 1;
    }
    assert(f.take(i as int) =~= f);
    (specials, g)
}

fn is_near_view(key: (i32, i32), v: &ViewRect) -> (r: bool)
    ensures
        r == near_view((key.0 as int, key.1 as int), *v),
{
    let x: i64 = key.0 as i64;
    let y: i64 = key.1 as i64;
    let l: i64 = v.left as i64;
    let t: i64 = v.top as i64;
    (x + 1) * 8192 > l - KEEP_MARGIN && x * 8192 < l + v.span_x as i64 + KEEP_MARGIN && (y + 1)
        * 8192 > t - KEEP_MARGIN && y * 8192 < t + v.span_y as i64 + KEEP_MARGIN
}

/// Drops the chunks far outside the view.
fn evict(store: Vec<StoredChunk>, v: &ViewRect) -> (r: Vec<StoredChunk>)
    requires
        keys_distinct(store@),
    ensures
        keys_distinct(r@),
        forall|k: (int, int)| #![trigger store_map(r@).contains_key(k)]
            store_map(r@).contains_key(k) <==> store_map(store@).contains_key(k) && near_view(k, *v),
        forall|k: (int, int)| #![trigger store_map(r@)[k]]
            store_map(r@).contains_key(k) ==> store_map(r@)[k] == store_map(store@)[k],
{
    let ghost all = store@;
    let mut out: Vec<StoredChunk> = Vec::new();
    let ghost mut from: Seq<int> = Seq::empty();
    let ghost mut n: int = 0;
    for c in it: store
        invariant
            it.seq() == all,
            n == it.index(),
            keys_distinct(all),
            from.len() == out@.len(),
            forall|a: int| 0 <= a < from.len() ==> 0 <= #[trigger] from[a] < n && out@[a] == all[from[a]] && near_view(key_of(all[from[a]]), *v),
            forall|a: int, b: int| 0 <= a < b < from.len() ==> #[trigger] from[a] < #[trigger] from[b],
            forall|j: int| 0 <= j < n && near_view(key_of(#[trigger] all[j]), *v) ==> from.contains(j),
    {
        let ghost from0 = from;
        if is_near_view(c.key, v) {
            out.push(c);
            proof {
                from = from.push(n);
            }
        }
        proof {
            assert forall|j: int| 0 <= j < n + 1 && near_view(key_of(#[trigger] all[j]), *v) implies from.contains(j) by {
                if j < n {
                    let a = choose|a: int| 0 <= a < from0.len() && from0[a] == j;
                    assert(from[a] == j);
                } else {
                    assert(from[from.len() - 1] == n);
                }
            }
            n = n + 1;
        }
    }
    proof {
        let o = out@;
        assert forall|a: int, b: int| 0 <= a < b < o.len() implies key_of(#[trigger] o[a]) != key_of(#[trigger] o[b]) by {
            assert(from[a] < from[b]);
            assert(key_of(all[from[a]]) != key_of(all[from[b]]));
        }
        assert forall|k: (int, int)| #![trigger store_map(o).contains_key(k)]
            (store_map(o).contains_key(k) <==> store_map(all).contains_key(k) && near_view(k, *v))
            && (store_map(o).contains_key(k) ==> store_map(o)[k] == store_map(all)[k]) by {
            lemma_store(o, k);
            lemma_store(all, k);
            if store_map(o).contains_key(k) {
                let a = choose|a: int| 0 <= a < o.len() && key_of(#[trigger] o[a]) == k;
                assert(key_of(all[from[a]]) == k);
            }
            if store_map(all).contains_key(k) && near_view(k, *v) {
                let j = choose|j: int| 0 <= j < all.len() && key_of(#[trigger] all[j]) == k;
                assert(from.contains(j));
                let a = choose|a: int| 0 <= a < from.len() && from[a] == j;
                assert(key_of(o[a]) == k);
            }
        }
        assert forall|k: (int, int)| #![trigger store_map(o)[k]] store_map(o).contains_key(k) implies store_map(o)[k] == store_map(all)[k] by {
            assert(store_map(o).contains_key(k));
        }
    }
    out
}

/// Puts the new batches of all chunks into the store.
fn store_groups(store: &mut Vec<StoredChunk>, groups: Vec<ChunkRects>, Ghost(fresh): Ghost<Seq<BbRect>>, stamp: ViewRect)
    requires
        keys_distinct(old(store)@),
        groups_of(groups@, fresh),
    ensures
        keys_distinct(final(store)@),
        forall|k: (int, int)| #![trigger store_map(final(store)@).contains_key(k)]
            {
                &&& store_map(final(store)@).contains_key(k) <==> store_map(
                    old(store)@,
                ).contains_key(k) || chunk_rects(fresh, k).len() > 0
                &&& chunk_rects(fresh, k).len() > 0 ==> majority(
                    chunk_rects(fresh, k),
                    stamp,
                    store_map(final(store)@)[k],
                )
                &&& chunk_rects(fresh, k).len() == 0 ==> store_map(final(store)@)[k] == store_map(
                    old(store)@,
                )[k]
            },
{
    let ghost all = groups@;
    let ghost before = store_map(store@);
    let ghost mut n: int = 0;
    for g in it: groups
        invariant
            it.seq() == all,
            n == it.index(),
            groups_of(all, fresh),
            keys_distinct(store@),
            before == store_map(old(store)@),
            forall|k: (int, int)| #![trigger store_map(store@).contains_key(k)]
                {
                    let done = exists|a: int| 0 <= a < n && group_key(#[trigger] all[a]) == k;
                    &&& store_map(store@).contains_key(k) <==> before.contains_key(k) || done
                    &&& done ==> majority(chunk_rects(fresh, k), stamp, store_map(store@)[k])
                    &&& !done ==> store_map(store@)[k] == before[k]
                },
    {
        let ghost s0 = store_map(store@);
        let ghost gk = group_key(g);
        assert(all[n] == g);
        let batch: ChunkBatch = majority_stamp(g.rects, stamp);
        let ghost bv = batch@;
        upsert(store, g.key, batch);
        proof {
            let s1 = store_map(store@);
            assert(s1 == s0.insert(gk, bv));
            assert forall|k: (int, int)| #![trigger s1.contains_key(k)]
                {
                    let done = exists|a: int| 0 <= a < n + 1 && group_key(#[trigger] all[a]) == k;
                    &&& s1.contains_key(k) <==> before.contains_key(k) || done
                    &&& done ==> majority(chunk_rects(fresh, k), stamp, s1[k])
                    &&& !done ==> s1[k] == before[k]
                } by {
                assert(s0.contains_key(k) || !s0.contains_key(k));
                if k == gk {
                    assert(group_key(all[n]) == k);
                } else if exists|a: int| 0 <= a < n + 1 && group_key(#[trigger] all[a]) == k {
                    let a = choose|a: int| 0 <= a < n + 1 && group_key(#[trigger] all[a]) == k;
                    assert(a < n);
                } else {
                    assert(!exists|a: int| 0 <= a < n && group_key(#[trigger] all[a]) == k);
                }
            }
            n = n + 1;
        }
    }
    proof {
        let s1 = store_map(store@);
        assert forall|k: (int, int)| #![trigger s1.contains_key(k)]
            {
                &&& s1.contains_key(k) <==> before.contains_key(k) || chunk_rects(fresh, k).len() > 0
                &&& chunk_rects(fresh, k).len() > 0 ==> majority(chunk_rects(fresh, k), stamp, s1[k])
                &&& chunk_rects(fresh, k).len() == 0 ==> s1[k] == before[k]
            } by {
            assert(s1.contains_key(k) || !s1.contains_key(k));
            if exists|a: int| 0 <= a < n && group_key(#[trigger] all[a]) == k {
                let a = choose|a: int| 0 <= a < n && group_key(#[trigger] all[a]) == k;
                assert(all[a].rects@ == chunk_rects(fresh, group_key(all[a])));
            }
        }
    }
}

/// The end of a frame: everything that was recorded since the last one is
/// complete and goes into the store; what moves replaces the overlay.
pub fn publish_frame(b: &mut Billboards, stamp: ViewRect)
    requires
        old(b).wf(),
    ensures
        final(b).wf(),
        published(old(b)@, final(b)@, stamp),
{
    let ghost b0 = b@;
    let mut fresh: Vec<BbRect> = Vec::new();
    fresh.append(&mut b.pending);
    let ghost f = fresh@;
    assert(f =~= b0.pending);
    assert(b.pending@.len() == 0);
    let mut store: Vec<StoredChunk> = Vec::new();
    let jump: bool = match &b.last_stamp {
        Some(last) => has_jumped(last, &stamp),
        None => false,
    };
    if jump {
        b.store = Vec::new();
        b.overlay = None;
    }
    let ghost base = store_map(b.store@);
    proof {
        if jump {
            assert(base =~= Map::<(int, int), BatchSpec>::empty());
        }
        assert forall|k: (int, int)| base.contains_key(k) <==> (!jump && b0.store.contains_key(k)) by {}
    }
    if stamp.span_x > MIN_SPAN {
        b.last_stamp = Some(stamp);
    }
    if fresh.len() > 0 {
        let (specials, groups) = split(&fresh);
        b.overlay = Some(majority_stamp(specials, stamp));
        store_groups(&mut b.store, groups, Ghost(f), stamp);
    } else {
        proof {
            reveal(Seq::filter);
            assert forall|k: (int, int)| (#[trigger] chunk_rects(f, k)).len() == 0 by {}
        }
    }
    let ghost mid = store_map(b.store@);
    proof {
        assert forall|k: (int, int)| #![trigger mid.contains_key(k)]
            {
                let new = chunk_rects(f, k);
                &&& mid.contains_key(k) <==> base.contains_key(k) || new.len() > 0
                &&& new.len() > 0 ==> majority(new, stamp, mid[k])
                &&& new.len() == 0 ==> mid[k] == base[k]
            } by {
            assert(mid.contains_key(k) || !mid.contains_key(k));
            assert(chunk_rects(f, k).len() >= 0);
        }
    }
    if stamp.span_x > MIN_SPAN && stamp.span_y > MIN_SPAN {
        store.append(&mut b.store);
        b.store = evict(store, &stamp);
    }
    proof {
        let a = store_map(b.store@);
        assert forall|k: (int, int)| #![trigger a.contains_key(k)]
            {
                let keep = evicts(stamp) ==> near_view(k, stamp);
                let new = chunk_rects(f, k);
                &&& a.contains_key(k) <==> keep && (new.len() > 0 || !jump && b0.store.contains_key(k))
                &&& a.contains_key(k) ==> if new.len() > 0 {
                    majority(new, stamp, a[k])
                } else {
                    a[k] == b0.store[k]
                }
            } by {
            assert(a.contains_key(k) || !a.contains_key(k));
            assert(mid.contains_key(k) || !mid.contains_key(k));
            assert(base.contains_key(k) <==> (!jump && b0.store.contains_key(k)));
            if a.contains_key(k) {
                assert(a[k] == mid[k]);
            }
        }
    }
}

fn copy_batch(b: &ChunkBatch) -> (r: ChunkBatch)
    ensures
        r@ == b@,
{
    let mut rects: Vec<BbRect> = Vec::new();
    let mut i: usize = 0;
    while i < b.rects.len()
        invariant
            i <= b.rects.len(),
            rects@ == b.rects@.take(i as int),
        decreases b.rects.len() - i,
    {
        rects.push(b.rects[i]);
        assert(b.rects@.take(i + 1) =~= b.rects@.take(i as int).push(b.rects@[i as int]));
        i = i + 1;
    }
    assert(b.rects@.take(i as int) =~= b.rects@);
    ChunkBatch { stamp: b.stamp, rects }
}

/// The batches that are drawn: those of all chunks, then the overlay where it
/// holds anything.
pub open spec fn batches_of(b: Billboards) -> Seq<BatchSpec> {
    let chunks = b.store@.map_values(|c: StoredChunk| c.batch@);
    match b.overlay {
        Some(o) => if o@.rects.len() > 0 {
            chunks.push(o@)
        } else {
            chunks
        },
        None => chunks,
    }
}

/// Copies of the batches that are drawn. Each comes with its own view, so their
/// age does not matter.
pub fn take_batches(b: &Billboards) -> (r: Vec<ChunkBatch>)
    ensures
        r@.map_values(|c: ChunkBatch| c@) == batches_of(*b),
{
    let mut r: Vec<ChunkBatch> = Vec::new();
    let ghost chunks = b.store@.map_values(|c: StoredChunk| c.batch@);
    let mut i: usize = 0;
    while i < b.store.len()
        invariant
            i <= b.store.len(),
            chunks == b.store@.map_values(|c: StoredChunk| c.batch@),
            r@.map_values(|c: ChunkBatch| c@) == chunks.take(i as int),
        decreases b.store.len() - i,
    {
        let ghost r0 = r@;
        r.push(copy_batch(&b.store[i].batch));
        assert(r@.map_values(|c: ChunkBatch| c@) =~= r0.map_values(|c: ChunkBatch| c@).push(
            chunks[i as int],
        ));
        assert(chunks.take(i + 1) =~= chunks.take(i as int).push(chunks[i as int]));
        i = i + 1;
    }
    assert(chunks.take(i as int) =~= chunks);
    match &b.overlay {
        Some(o) => {
            if o.rects.len() > 0 {
                let ghost r0 = r@;
                r.push(copy_batch(o));
                assert(r@.map_values(|c: ChunkBatch| c@) =~= r0.map_values(|c: ChunkBatch| c@).push(
                    o@,
                ));
            }
        },
        None => {},
    }
    r
}

/// The store never comes to hold an empty batch, and every chunk of which
/// something was recorded within the margin is in it.
pub proof fn lemma_publish_fills(b: BillboardsSpec, a: BillboardsSpec, stamp: ViewRect, key: (int, int))
    requires
        published(b, a, stamp),
        forall|k: (int, int)| #[trigger] b.store.contains_key(k) ==> b.store[k].rects.len() > 0,
    ensures
        a.store.contains_key(key) ==> a.store[key].rects.len() > 0,
        chunk_rects(b.pending, key).len() > 0 && near_view(key, stamp) ==> a.store.contains_key(key),
        evicts(stamp) && a.store.contains_key(key) ==> near_view(key, stamp),
{
    assert(a.store.contains_key(key) || !a.store.contains_key(key));
    if b.store.contains_key(key) {
        assert(b.store[key].rects.len() > 0);
    }
}

/// A number and its eighth of a tile: 32 of its units lie between one and the next,
/// and those below zero are cut off toward it.
pub proof fn lemma_eighths(n: int)
    ensures
        n >= 0 ==> 32 * eighths(n) <= n < 32 * eighths(n) + 32,
        n <= 0 ==> 32 * eighths(n) - 32 < n <= 32 * eighths(n),
        eighths(-n) == -eighths(n),
{
}

/// Chunks are 32 tiles of 256 units wide, and are counted from the one that begins
/// at the origin.
pub proof fn lemma_chunk_bounds(kx: i32, ky: i32)
    ensures
        8192 * chunk_of(kx, ky).0 <= kx < 8192 * chunk_of(kx, ky).0 + 8192,
        8192 * chunk_of(kx, ky).1 <= ky < 8192 * chunk_of(kx, ky).1 + 8192,
{
}

/// A view that stays as wide has jumped exactly where it moved by more than a quarter
/// of itself on an axis; one that stays centred, exactly where its width changed by
/// more than the factor 1.3. Without a view before or now nothing jumps.
pub proof fn lemma_when_the_view_jumps(last: ViewRect, now: ViewRect)
    ensures
        now.span_x <= 25 || last.span_x <= 25 ==> !jumped(last, now),
        now.span_x > 25 && last.span_x == now.span_x && last.span_y == now.span_y ==> (jumped(last, now)
            <==> 4 * (now.left - last.left) > now.span_x || 4 * (last.left - now.left) > now.span_x || 4 * (
        now.top - last.top) > now.span_y || 4 * (last.top - now.top) > now.span_y),
        now.span_x > 25 && last.span_x > 25 && now.span_y >= 0 && 2 * last.left + last.span_x == 2 * now.left
            + now.span_x && 2 * last.top + last.span_y == 2 * now.top + now.span_y ==> (jumped(last, now)
            <==> 10 * now.span_x > 13 * last.span_x || 10 * last.span_x > 13 * now.span_x),
{
}

/// The rectangles that are kept of some are those of the view under which most of
/// them were placed, all of them and in their order. Views are told apart to an
/// eighth of a tile, and a rectangle without a view is kept only where none has one.
pub proof fn lemma_most_common_view_is_kept(rects: Vec<BbRect>, fallback: ViewRect, r: ChunkBatch, i: int)
    requires
        call_ensures(majority_stamp, (rects, fallback), r),
        0 <= i < rects@.len(),
    ensures
        ({
            let s = rects@;
            let same = |a: ViewRect, b: ViewRect|
                eighths(a.left as int) == eighths(b.left as int) && eighths(a.top as int) == eighths(
                    b.top as int,
                ) && eighths(a.span_x as int) == eighths(b.span_x as int) && eighths(a.span_y as int)
                    == eighths(b.span_y as int);
            let some = exists|j: int| 0 <= j < s.len() && (#[trigger] s[j]).stamp.span_x > 25;
            let like = |v: ViewRect| s.filter(|q: BbRect| q.stamp.span_x > 25 && same(q.stamp, v));
            &&& !some ==> r.rects@ == s && r.stamp == fallback
            &&& some ==> r.rects@ == like(r.stamp) && r.stamp.span_x > 25
            &&& s[i].stamp.span_x > 25 ==> like(s[i].stamp).len() <= r.rects@.len()
        }),
{
    let s = rects@;
    if exists|j: int| 0 <= j < s.len() && stamped(#[trigger] s[j]) {
        let k = choose|k: (int, int, int, int)| #[trigger]
            most_votes(s, k) && r@.rects == placed_under(s, k) && r@.rects.len() > 0 && r@.stamp
                == r@.rects.last().stamp;
        let last = r@.rects.len() - 1;
        lemma_kept(s, k, last);
        let same = |a: ViewRect, b: ViewRect|
            eighths(a.left as int) == eighths(b.left as int) && eighths(a.top as int) == eighths(b.top as int)
                && eighths(a.span_x as int) == eighths(b.span_x as int) && eighths(a.span_y as int)
                == eighths(b.span_y as int);
        assert forall|v: ViewRect| #[trigger] stamp_key(v) == stamp_key(v) implies s.filter(
            |q: BbRect| q.stamp.span_x > 25 && same(q.stamp, v),
        ) == placed_under(s, stamp_key(v)) by {
            let f = |q: BbRect| q.stamp.span_x > 25 && same(q.stamp, v);
            let g = |q: BbRect| under_key(q, stamp_key(v));
            assert(f =~= g);
        }
        assert(stamp_key(r.stamp) == k);
        if s[i].stamp.span_x > 25 {
            let o = stamp_key(s[i].stamp);
            assert(votes(s, o) <= votes(s, k));
            lemma_votes_from(s, o);
            lemma_votes_from(s, k);
            assert(stamp_key(s[i].stamp) == stamp_key(s[i].stamp));
        }
        assert(stamped(s[choose|j: int| 0 <= j < s.len() && stamped(#[trigger] s[j])]));
    } else {
        assert(!stamped(s[i]));
    }
}

/// What a frame publishes. A chunk of which something that stands was recorded takes
/// it on, and what was there goes; a chunk of which nothing was recorded stays as it
/// was unless the view has jumped. Either way a chunk more than forty tiles outside a
/// view is gone. What moves is kept apart from the chunks, and replaced as a whole
/// whenever anything was recorded.
pub proof fn lemma_published_chunks(b: BillboardsSpec, a: BillboardsSpec, stamp: ViewRect, x: int, y: int)
    requires
        published(b, a, stamp),
    ensures
        ({
            let jump = b.last_stamp matches Some(last) && jumped(last, stamp);
            let view = stamp.span_x > 25 && stamp.span_y > 25;
            let near = 8192 * x + 8192 > stamp.left - 10240 && 8192 * x < stamp.left + stamp.span_x + 10240
                && 8192 * y + 8192 > stamp.top - 10240 && 8192 * y < stamp.top + stamp.span_y + 10240;
            let here = |r: BbRect| !r.special && chunk_of(r.kx, r.ky) == (x, y);
            let new = b.pending.filter(here);
            &&& view && !near ==> !a.store.contains_key((x, y))
            &&& (!view || near) && new.len() > 0 ==> a.store.contains_key((x, y)) && majority(
                new,
                stamp,
                a.store[(x, y)],
            )
            &&& (!view || near) && new.len() == 0 && !jump ==> a.store.contains_key((x, y))
                == b.store.contains_key((x, y)) && (b.store.contains_key((x, y)) ==> a.store[(x, y)]
                == b.store[(x, y)])
            &&& new.len() == 0 && jump ==> !a.store.contains_key((x, y))
            &&& a.pending.len() == 0
            &&& b.pending.len() > 0 ==> a.overlay is Some && majority(
                b.pending.filter(|r: BbRect| r.special),
                stamp,
                a.overlay->0,
            )
            &&& b.pending.len() == 0 && !jump ==> a.overlay == b.overlay
            &&& b.pending.len() == 0 && jump ==> a.overlay is None
            &&& stamp.span_x > 25 ==> a.last_stamp == Some(stamp)
            &&& stamp.span_x <= 25 ==> a.last_stamp == b.last_stamp
        }),
{
    let here = |r: BbRect| !r.special && chunk_of(r.kx, r.ky) == (x, y);
    assert(b.pending.filter(here) == chunk_rects(b.pending, (x, y)));
    let key = (x, y);
    assert(a.store.contains_key(key) || !a.store.contains_key(key));
}

/// Every batch of the store is drawn, and then the overlay.
pub proof fn lemma_every_batch_is_drawn(b: &Billboards, r: Vec<ChunkBatch>, i: int)
    requires
        call_ensures(take_batches, (b,), r),
    ensures
        0 <= i < b.store@.len() ==> i < r@.len() && r@[i]@ == b.store@[i].batch@,
        b.overlay matches Some(o) ==> o.rects@.len() > 0 ==> r@.len() == b.store@.len() + 1 && r@[b.store@.len()
            as int]@ == o@,
        !(b.overlay matches Some(o) && o.rects@.len() > 0) ==> r@.len() == b.store@.len(),
{
    let v = r@.map_values(|c: ChunkBatch| c@);
    assert(v.len() == r@.len());
    if 0 <= i < b.store@.len() {
        assert(v[i] == r@[i]@);
    }
    if r@.len() == b.store@.len() + 1 {
        assert(v[b.store@.len() as int] == r@[b.store@.len() as int]@);
    }
}

} // verus!
