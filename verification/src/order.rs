//! Stable ordering by integer keys.

use vstd::prelude::*;

verus! {

/// Item `a` comes before item `b`: it has the smaller key, or the same key and
/// the smaller number.
pub open spec fn before(keys: Seq<i64>, a: usize, b: usize) -> bool {
    keys[a as int] < keys[b as int] || keys[a as int] == keys[b as int] && a < b
}

/// Each item of the list comes before those behind it.
pub open spec fn in_order(keys: Seq<i64>, s: Seq<usize>) -> bool {
    forall|i: int, j: int| 0 <= i < j < s.len() ==> before(keys, #[trigger] s[i], #[trigger] s[j])
}

/// The list names every item of `n` once.
pub open spec fn names_all(s: Seq<usize>, n: int) -> bool {
    &&& s.len() == n
    &&& s.no_duplicates()
    &&& forall|i: int| 0 <= i < s.len() ==> #[trigger] s[i] < n
}

/// The list names every item once, in the stable order of the keys.
pub open spec fn stable_order(keys: Seq<i64>, s: Seq<usize>) -> bool {
    names_all(s, keys.len() as int) && in_order(keys, s)
}

pub open spec fn in_range(keys: Seq<i64>, s: Seq<usize>) -> bool {
    forall|i: int| 0 <= i < s.len() ==> #[trigger] s[i] < keys.len()
}

/// Everything in `a` comes before everything in `b`.
spec fn all_before(keys: Seq<i64>, a: Seq<usize>, b: Seq<usize>) -> bool {
    forall|i: int, j: int|
        0 <= i < a.len() && 0 <= j < b.len() ==> before(keys, #[trigger] a[i], #[trigger] b[j])
}

spec fn apart(a: Seq<usize>, b: Seq<usize>) -> bool {
    forall|i: int, j: int| 0 <= i < a.len() && 0 <= j < b.len() ==> #[trigger] a[i] != #[trigger] b[j]
}

fn comes_first(keys: &Vec<i64>, a: usize, b: usize) -> (r: bool)
    requires
        a < keys.len(),
        b < keys.len(),
    ensures
        r == before(keys@, a, b),
{
    keys[a] < keys[b] || keys[a] == keys[b] && a < b
}

fn merge(keys: &Vec<i64>, a: &Vec<usize>, b: &Vec<usize>) -> (r: Vec<usize>)
    requires
        in_range(keys@, a@),
        in_range(keys@, b@),
        in_order(keys@, a@),
        in_order(keys@, b@),
        apart(a@, b@),
    ensures
        in_order(keys@, r@),
        r.len() == a.len() + b.len(),
        forall|x: usize| #[trigger] r@.contains(x) ==> a@.contains(x) || b@.contains(x),
{
    let mut r: Vec<usize> = Vec::new();
    let mut i: usize = 0;
    let mut j: usize = 0;
    while i < a.len() || j < b.len()
        invariant
            i <= a.len(),
            j <= b.len(),
            in_range(keys@, a@),
            in_range(keys@, b@),
            in_order(keys@, a@),
            in_order(keys@, b@),
            apart(a@, b@),
            r.len() == i + j,
            in_order(keys@, r@),
            all_before(keys@, r@, a@.skip(i as int)),
            all_before(keys@, r@, b@.skip(j as int)),
            forall|k: int| 0 <= k < r.len() ==> a@.contains(#[trigger] r@[k]) || b@.contains(r@[k]),
        decreases a.len() + b.len() - i - j,
    {
        let ghost r0 = r@;
        let from_a: bool = if i == a.len() {
            false
        } else if j == b.len() {
            true
        } else {
            comes_first(keys, a[i], b[j])
        };
        if from_a {
            let x: usize = a[i];
            r.push(x);
            proof {
                assert(x == a@.skip(i as int)[0]);
                assert forall|p: int, q: int| 0 <= p < q < r@.len() implies before(keys@, #[trigger] r@[p], #[trigger] r@[q]) by {
                    if q == r0.len() {
                        assert(before(keys@, r0[p], a@.skip(i as int)[0]));
                    }
                }
                assert forall|p: int, q: int| 0 <= p < r@.len() && 0 <= q < a@.skip(i + 1).len() implies before(keys@, #[trigger] r@[p], #[trigger] a@.skip(i + 1)[q]) by {
                    assert(a@.skip(i + 1)[q] == a@.skip(i as int)[q + 1]);
                    if p < r0.len() {
                        assert(before(keys@, r0[p], a@.skip(i as int)[q + 1]));
                    } else {
                        assert(before(keys@, a@[i as int], a@[i + 1 + q]));
                    }
                }
                assert forall|p: int, q: int| 0 <= p < r@.len() && 0 <= q < b@.skip(j as int).len() implies before(keys@, #[trigger] r@[p], #[trigger] b@.skip(j as int)[q]) by {
                    if p < r0.len() {
                        assert(before(keys@, r0[p], b@.skip(j as int)[q]));
                    } else {
                        assert(before(keys@, x, b@[j as int]));
                        assert(b@.skip(j as int)[q] == b@[j + q]);
                        if q > 0 {
                            assert(before(keys@, b@[j as int], b@[j + q]));
                        }
                    }
                }
                assert(a@.contains(x));
            }
            i = i + 1;
        } else {
            let x: usize = b[j];
            r.push(x);
            proof {
                assert(x == b@.skip(j as int)[0]);
                assert forall|p: int, q: int| 0 <= p < q < r@.len() implies before(keys@, #[trigger] r@[p], #[trigger] r@[q]) by {
                    if q == r0.len() {
                        assert(before(keys@, r0[p], b@.skip(j as int)[0]));
                    }
                }
                assert forall|p: int, q: int| 0 <= p < r@.len() && 0 <= q < b@.skip(j + 1).len() implies before(keys@, #[trigger] r@[p], #[trigger] b@.skip(j + 1)[q]) by {
                    assert(b@.skip(j + 1)[q] == b@.skip(j as int)[q + 1]);
                    if p < r0.len() {
                        assert(before(keys@, r0[p], b@.skip(j as int)[q + 1]));
                    } else {
                        assert(before(keys@, b@[j as int], b@[j + 1 + q]));
                    }
                }
                assert forall|p: int, q: int| 0 <= p < r@.len() && 0 <= q < a@.skip(i as int).len() implies before(keys@, #[trigger] r@[p], #[trigger] a@.skip(i as int)[q]) by {
                    if p < r0.len() {
                        assert(before(keys@, r0[p], a@.skip(i as int)[q]));
                    } else {
                        assert(a@[i as int] != b@[j as int]);
                        assert(before(keys@, x, a@[i as int]));
                        assert(a@.skip(i as int)[q] == a@[i + q]);
                        if q > 0 {
                            assert(before(keys@, a@[i as int], a@[i + q]));
                        }
                    }
                }
                assert(b@.contains(x));
            }
            j = j + 1;
        }
    }
    r
}

fn merge_sort(keys: &Vec<i64>, from: usize, to: usize) -> (r: Vec<usize>)
    requires
        from <= to <= keys.len(),
    ensures
        in_order(keys@, r@),
        r.len() == to - from,
        forall|i: int| 0 <= i < r.len() ==> from <= #[trigger] r@[i] < to,
    decreases to - from,
{
    let mut r: Vec<usize> = Vec::new();
    if to - from == 0 {
        return r;
    }
    if to - from == 1 {
        r.push(from);
        return r;
    }
    let mid: usize = from + (to - from) / 2;
    let a: Vec<usize> = merge_sort(keys, from, mid);
    let b: Vec<usize> = merge_sort(keys, mid, to);
    let r: Vec<usize> = merge(keys, &a, &b);
    proof {
        assert forall|i: int| 0 <= i < r@.len() implies from <= #[trigger] r@[i] < to by {
            assert(r@.contains(r@[i]));
        }
    }
    r
}

/// The items in the order of their keys; items with the same key keep their
/// order.
pub fn order_by_key(keys: &Vec<i64>) -> (r: Vec<usize>)
    ensures
        stable_order(keys@, r@),
{
    let r: Vec<usize> = merge_sort(keys, 0, keys.len());
    proof {
        assert forall|i: int, j: int| 0 <= i < r@.len() && 0 <= j < r@.len() && i != j implies r@[i] != r@[j] by {
            if i < j {
                assert(before(keys@, r@[i], r@[j]));
            } else {
                assert(before(keys@, r@[j], r@[i]));
            }
        }
    }
    r
}

/// An order that names every item once leaves no item out.
pub proof fn lemma_order_covers(s: Seq<usize>, n: int, x: usize)
    requires
        names_all(s, n),
        x < n,
    ensures
        s.contains(x),
{
    let ints = s.map_values(|i: usize| i as int);
    assert forall|i: int, j: int| 0 <= i < ints.len() && 0 <= j < ints.len() && i != j implies ints[i] != ints[j] by {
        assert(s[i] != s[j]);
    }
    ints.unique_seq_to_set();
    let range = vstd::set_lib::set_int_range(0, n);
    vstd::set_lib::lemma_int_range(0, n);
    assert forall|y: int| ints.to_set().contains(y) implies range.contains(y) by {
        let i = choose|i: int| 0 <= i < ints.len() && ints[i] == y;
        assert(s[i] < n);
    }
    vstd::set_lib::lemma_subset_equality(ints.to_set(), range);
    assert(ints.to_set().contains(x as int));
    let i = choose|i: int| 0 <= i < ints.len() && ints[i] == x as int;
    assert(s[i] == x);
}

/// There is only one stable order.
pub proof fn lemma_order_unique(keys: Seq<i64>, a: Seq<usize>, b: Seq<usize>)
    requires
        stable_order(keys, a),
        stable_order(keys, b),
    ensures
        a == b,
{
    let n = keys.len() as int;
    assert forall|i: int| 0 <= i < n implies #[trigger] a[i] == b[i] by {
        lemma_prefix_equal(keys, a, b, i);
    }
    assert(a =~= b);
}

proof fn lemma_prefix_equal(keys: Seq<i64>, a: Seq<usize>, b: Seq<usize>, i: int)
    requires
        stable_order(keys, a),
        stable_order(keys, b),
        0 <= i < keys.len(),
    ensures
        forall|k: int| 0 <= k <= i ==> #[trigger] a[k] == b[k],
    decreases i,
{
    if i > 0 {
        lemma_prefix_equal(keys, a, b, i - 1);
    }
    let n = keys.len() as int;
    lemma_order_covers(b, n, a[i]);
    lemma_order_covers(a, n, b[i]);
    let p = choose|p: int| 0 <= p < b.len() && b[p] == a[i];
    let q = choose|q: int| 0 <= q < a.len() && a[q] == b[i];
    if p < i {
        assert(a[p] == b[p]);
    }
    if q < i {
        assert(a[q] == b[q]);
    }
    if p > i && q > i {
        assert(before(keys, b[i], b[p]));
        assert(before(keys, a[i], a[q]));
    }
}

/// What is put in order by keys: every item once, none of a larger key before one of
/// a smaller, and items of the same key as they came.
pub proof fn lemma_in_order(keys: &Vec<i64>, r: Vec<usize>, a: int, b: int, item: usize)
    requires
        call_ensures(order_by_key, (keys,), r),
        0 <= a < b < r@.len(),
    ensures
        r@.len() == keys@.len(),
        item < keys@.len() ==> r@.contains(item),
        r@[a] < keys@.len(),
        keys@[r@[a] as int] <= keys@[r@[b] as int],
        keys@[r@[a] as int] == keys@[r@[b] as int] ==> r@[a] < r@[b],
{
    if item < keys@.len() {
        lemma_order_covers(r@, keys@.len() as int, item);
    }
    assert(before(keys@, r@[a], r@[b]));
}

} // verus!
