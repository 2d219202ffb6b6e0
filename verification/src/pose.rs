//! Posing: which of the game's feet each leg of the spidertron's model reaches
//! for, and which keys of a track a time falls between.
//!
//! Angles and times come as keys that are ordered as the floats are.

use crate::order::{names_all, order_by_key, stable_order};
use vstd::prelude::*;

verus! {

/// The number of feet that the game gives.
pub const FEET: usize = 8;

/// How far each foot is from a leg, by azimuth; a foot that is missing has no
/// distance.
pub type Distances = Vec<Option<u32>>;

/// Foot `t` is free and there.
pub open spec fn free_foot(d: Seq<Option<u32>>, used: Set<int>, t: int) -> bool {
    0 <= t < 8 && d[t] is Some && !used.contains(t)
}

/// Foot `t` is the nearest free one: none is nearer, and none before it is as
/// near.
pub open spec fn nearest_foot(d: Seq<Option<u32>>, used: Set<int>, t: int) -> bool {
    &&& free_foot(d, used, t)
    &&& forall|k: int| free_foot(d, used, k) ==> #[trigger] d[t]->0 <= d[k]->0
    &&& forall|k: int| free_foot(d, used, k) && k < t ==> d[t]->0 < (#[trigger] d[k])->0
}

/// The feet taken by the first `n` legs of the order.
pub open spec fn taken(order: Seq<usize>, feet: Seq<Option<usize>>, n: int) -> Set<int> {
    Set::new(
        |t: int| exists|i: int|
            0 <= i < n && (#[trigger] feet[order[i] as int]) is Some && feet[order[i] as int]->0 == t,
    )
}

/// Each leg in turn takes the nearest foot that is left; a leg for which none is
/// left stays at rest.
pub open spec fn matched(order: Seq<usize>, dist: Seq<Distances>, feet: Seq<Option<usize>>, n: int) -> bool {
    forall|i: int|
        0 <= i < n ==> match #[trigger] feet[order[i] as int] {
            Some(t) => nearest_foot(dist[order[i] as int]@, taken(order, feet, i), t as int),
            None => forall|k: int| !free_foot(dist[order[i] as int]@, taken(order, feet, i), k),
        }
}

fn find_nearest(d: &Distances, used: &Vec<bool>, Ghost(gone): Ghost<Set<int>>) -> (r: Option<usize>)
    requires
        d.len() == 8,
        used.len() == 8,
        forall|t: int| 0 <= t < 8 ==> (#[trigger] used@[t] <==> gone.contains(t)),
    ensures
        r matches Some(t) ==> nearest_foot(d@, gone, t as int),
        r is None ==> forall|k: int| !free_foot(d@, gone, k),
{
    let mut best: Option<usize> = None;
    let mut best_d: u32 = 0;
    let mut t: usize = 0;
    while t < 8
        invariant
            t <= 8,
            d.len() == 8,
            used.len() == 8,
            forall|k: int| 0 <= k < 8 ==> (#[trigger] used@[k] <==> gone.contains(k)),
            best is None ==> forall|k: int| 0 <= k < t ==> !free_foot(d@, gone, k),
            best matches Some(b) ==> {
                &&& b < t
                &&& free_foot(d@, gone, b as int)
                &&& best_d == d@[b as int]->0
                &&& forall|k: int| 0 <= k < t && free_foot(d@, gone, k) ==> best_d <= (#[trigger] d@[k])->0
                &&& forall|k: int| 0 <= k < b && free_foot(d@, gone, k) ==> best_d < (#[trigger] d@[k])->0
            },
        decreases 8 - t,
    {
        assert(used@[t as int] <==> gone.contains(t as int));
        if !used[t] {
            match d[t] {
                Some(x) => {
                    if best.is_none() || x < best_d {
                        best = Some(t);
                        best_d = x;
                    }
                },
                None => {},
            }
        }
        t = t + 1;
    }
    best
}

/// Matches the legs to the game's feet. The legs are served in the order of
/// their hips' azimuths, so that none takes its neighbour's foot.
pub fn match_feet(hips: &Vec<i64>, dist: &Vec<Distances>) -> (r: Vec<Option<usize>>)
    requires
        hips.len() == dist.len(),
        forall|i: int| 0 <= i < dist.len() ==> (#[trigger] dist@[i]).len() == 8,
    ensures
        r.len() == hips.len(),
        exists|order: Seq<usize>| #[trigger]
            stable_order(hips@, order) && matched(order, dist@, r@, hips@.len() as int),
{
    let order: Vec<usize> = order_by_key(hips);
    let n: usize = hips.len();
    let mut feet: Vec<Option<usize>> = Vec::new();
    let mut i: usize = 0;
    while i < n
        invariant
            i <= n,
            feet.len() == i,
            forall|k: int| 0 <= k < i ==> feet@[k] is None,
        decreases n - i,
    {
        feet.push(None);
        i = i + 1;
    }
    let mut used: Vec<bool> = Vec::new();
    let mut t: usize = 0;
    while t < 8
        invariant
            t <= 8,
            used.len() == t,
            forall|k: int| 0 <= k < t ==> !used@[k],
        decreases 8 - t,
    {
        used.push(false);
        t = t + 1;
    }
    let mut k: usize = 0;
    while k < n
        invariant
            k <= n,
            n == hips.len(),
            n == dist.len(),
            feet.len() == n,
            used.len() == 8,
            stable_order(hips@, order@),
            forall|i: int| 0 <= i < dist.len() ==> (#[trigger] dist@[i]).len() == 8,
            forall|x: int| 0 <= x < 8 ==> (#[trigger] used@[x] <==> taken(order@, feet@, k as int).contains(x)),
            matched(order@, dist@, feet@, k as int),
            forall|x: int| k <= x < n ==> feet@[#[trigger] order@[x] as int] is None,
        decreases n - k,
    {
        let leg: usize = order[k];
        let ghost gone = taken(order@, feet@, k as int);
        let ghost feet0 = feet@;
        assert(feet@[order@[k as int] as int] is None);
        let found: Option<usize> = find_nearest(&dist[leg], &used, Ghost(gone));
        match found {
            Some(t) => {
                feet.set(leg, Some(t));
                used.set(t, true);
            },
            None => {},
        }
        proof {
            let o = order@;
            assert forall|x: int| 0 <= x < n && x != k implies feet@[#[trigger] o[x] as int] == feet0[o[x] as int] by {
                assert(o[x] != o[k as int]);
            }
            assert forall|m: int| 0 <= m <= k implies #[trigger] taken(o, feet@, m) == taken(o, feet0, m) by {
                assert forall|t: int| taken(o, feet@, m).contains(t) <==> taken(o, feet0, m).contains(t) by {
                    if taken(o, feet@, m).contains(t) {
                        let x = choose|x: int| 0 <= x < m && (#[trigger] feet@[o[x] as int]) is Some && feet@[o[x] as int]->0 == t;
                        assert(feet0[o[x] as int] == feet@[o[x] as int]);
                    }
                    if taken(o, feet0, m).contains(t) {
                        let x = choose|x: int| 0 <= x < m && (#[trigger] feet0[o[x] as int]) is Some && feet0[o[x] as int]->0 == t;
                        assert(feet0[o[x] as int] == feet@[o[x] as int]);
                    }
                }
                assert(taken(o, feet@, m) =~= taken(o, feet0, m));
            }
            assert(taken(o, feet@, k as int) == gone);
            assert forall|i: int| 0 <= i < k + 1 implies match #[trigger] feet@[o[i] as int] {
                Some(t) => nearest_foot(dist@[o[i] as int]@, taken(o, feet@, i), t as int),
                None => forall|x: int| !free_foot(dist@[o[i] as int]@, taken(o, feet@, i), x),
            } by {
                assert(taken(o, feet@, i) == taken(o, feet0, i));
                if i < k {
                    assert(feet@[o[i] as int] == feet0[o[i] as int]);
                }
            }
            assert forall|x: int| 0 <= x < 8 implies (#[trigger] used@[x] <==> taken(o, feet@, k + 1).contains(x)) by {
                if used@[x] {
                    if gone.contains(x) {
                        let y = choose|y: int| 0 <= y < k && (#[trigger] feet0[o[y] as int]) is Some && feet0[o[y] as int]->0 == x;
                        assert(feet@[o[y] as int] == feet0[o[y] as int]);
                    } else {
                        assert(feet@[o[k as int] as int] is Some);
                    }
                }
                if taken(o, feet@, k + 1).contains(x) {
                    let y = choose|y: int| 0 <= y < k + 1 && (#[trigger] feet@[o[y] as int]) is Some && feet@[o[y] as int]->0 == x;
                    if y < k {
                        assert(feet@[o[y] as int] == feet0[o[y] as int]);
                        assert(gone.contains(x));
                    }
                }
            }
        }
        k = k + 1;
    }
    feet
}

/// No two legs reach for the same foot.
pub proof fn lemma_feet_distinct(order: Seq<usize>, dist: Seq<Distances>, feet: Seq<Option<usize>>, n: int, i: int, j: int)
    requires
        names_all(order, n),
        feet.len() == n,
        matched(order, dist, feet, n),
        0 <= i < j < n,
        feet[order[i] as int] is Some,
        feet[order[j] as int] is Some,
    ensures
        feet[order[i] as int] != feet[order[j] as int],
{
    let t = feet[order[j] as int]->0 as int;
    assert(nearest_foot(dist[order[j] as int]@, taken(order, feet, j), t));
    assert(!taken(order, feet, j).contains(t));
}

/// Where a time falls among the keys of a track.
#[derive(Clone, Copy, PartialEq, Eq, Structural, Debug)]
pub enum KeySpot {
    /// There are no keys.
    Rest,
    /// On or before the first key.
    First,
    /// On or behind the last key.
    Last,
    /// Between the key before this one and this one.
    Between(usize),
}

/// Finds where a time falls among the keys of a track. Between two keys it gives a
/// pair of neighbours around the time: the only such pair where the keys are in
/// order.
pub fn key_spot(times: &Vec<i32>, t: i32) -> (r: KeySpot)
    ensures
        times.len() == 0 <==> r == KeySpot::Rest,
        times.len() > 0 ==> (r == KeySpot::First <==> t <= times@[0]),
        times.len() > 0 && t > times@[0] ==> (r == KeySpot::Last <==> t >= times@.last()),
        r matches KeySpot::Between(i) ==> 1 <= i < times.len() && times@[i - 1] <= t
            < times@[i as int],
{
    if times.len() == 0 {
        return KeySpot::Rest;
    }
    if t <= times[0] {
        return KeySpot::First;
    }
    if t >= times[times.len() - 1] {
        return KeySpot::Last;
    }
    let mut lo: usize = 0;
    let mut hi: usize = times.len();
    while lo < hi
        invariant
            times.len() > 0,
            times@[0] < t < times@.last(),
            lo <= hi <= times.len(),
            lo == 0 || times@[lo - 1] <= t,
            hi == times.len() || times@[hi as int] > t,
        decreases hi - lo,
    {
        let mid: usize = lo + (hi - lo) / 2;
        if times[mid] <= t {
            lo = mid + 1;
        } else {
            hi = mid;
        }
    }
    KeySpot::Between(lo)
}

/// A leg that is served before another takes a foot that is no farther from it than any
/// that the other is left with, and stays at rest only where it could reach none of
/// those. Legs are served in the order of their hips.
pub proof fn lemma_feet_are_near(hips: &Vec<i64>, dist: &Vec<Distances>, r: Vec<Option<usize>>, a: int, b: int)
    requires
        hips@.len() == dist@.len(),
        forall|i: int| 0 <= i < dist@.len() ==> (#[trigger] dist@[i]).len() == 8,
        call_ensures(match_feet, (hips, dist), r),
        0 <= a < hips@.len(),
        0 <= b < hips@.len(),
        a != b,
        hips@[a] < hips@[b] || (hips@[a] == hips@[b] && a < b),
        r@[b] is Some,
    ensures
        r@.len() == hips@.len(),
        r@[b]->0 < 8,
        r@[a] != r@[b],
        dist@[b]@[r@[b]->0 as int] is Some,
        dist@[a]@[r@[b]->0 as int] is Some ==> r@[a] is Some && dist@[a]@[r@[a]->0 as int] is Some
            && dist@[a]@[r@[a]->0 as int]->0 <= dist@[a]@[r@[b]->0 as int]->0,
{
    let n = hips@.len() as int;
    let order = choose|order: Seq<usize>| #[trigger]
        stable_order(hips@, order) && matched(order, dist@, r@, n);
    assert(hips.len() == hips@.len());
    assert(r.len() == r@.len());
    crate::order::lemma_order_covers(order, n, a as usize);
    crate::order::lemma_order_covers(order, n, b as usize);
    let i = choose|i: int| 0 <= i < order.len() && order[i] == a;
    let j = choose|j: int| 0 <= j < order.len() && order[j] == b;
    if j < i {
        assert(crate::order::before(hips@, order[j], order[i]));
    }
    assert(i < j);
    let t = r@[b]->0 as int;
    let used = taken(order, r@, i);
    let later = taken(order, r@, j);
    assert(r@[order[j] as int] is Some);
    assert(nearest_foot(dist@[b]@, later, t));
    if used.contains(t) {
        let k = choose|k: int| 0 <= k < i && (#[trigger] r@[order[k] as int]) is Some && r@[order[k] as int]->0 == t;
        assert(later.contains(t));
    }
    if r@[a] is Some && r@[a] == r@[b] {
        assert(r@[order[i] as int] is Some);
        assert(later.contains(t));
    }
    if dist@[a]@[t] is Some {
        assert(free_foot(dist@[a]@, used, t));
        if r@[order[i] as int] is Some {
            let s = r@[a]->0 as int;
            assert(nearest_foot(dist@[a]@, used, s));
            assert(dist@[a]@[s]->0 <= dist@[a]@[t]->0);
        }
    }
}

} // verus!
