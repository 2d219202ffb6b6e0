//! How the models of a frame are drawn: which of them together, which uploads
//! and lamps there is room for, and where each matrix stands.

use crate::frame::ViewRect;
use crate::models::{get, ready, request, LoadedModel, Loads, Registry};
use crate::text::{contains, has_text, str_eq};
use vstd::prelude::*;

verus! {

/// What must agree for things to be drawn together.
#[derive(Clone, Copy, PartialEq, Eq, Structural, Debug)]
pub struct Look {
    pub id: u64,
    pub u: u32,
    pub v: u32,
    pub active: bool,
}

/// Things with the same look, by their numbers.
#[derive(Debug)]
pub struct Group {
    pub look: Look,
    pub members: Vec<usize>,
}

/// A group holds a thing.
pub open spec fn holds(g: Group, i: usize) -> bool {
    g.members@.contains(i)
}

/// Some group holds a thing.
pub open spec fn some_holds(groups: Seq<Group>, i: usize) -> bool {
    exists|k: int| 0 <= k < groups.len() && holds(#[trigger] groups[k], i)
}

/// The numbers ascend.
pub open spec fn ascending(s: Seq<usize>) -> bool {
    forall|i: int, j: int| 0 <= i < j < s.len() ==> #[trigger] s[i] < #[trigger] s[j]
}

/// A group of things of those numbered below `n` that are picked.
pub open spec fn group_ok(g: Group, looks: Seq<Look>, pick: Seq<bool>, n: int) -> bool {
    &&& g.members@.len() > 0
    &&& ascending(g.members@)
    &&& forall|i: int|
        0 <= i < g.members@.len() ==> {
            let m = #[trigger] g.members@[i];
            m < n && pick[m as int] && looks[m as int] == g.look
        }
}

/// The groups hold what is picked of the things numbered below `n`, each thing
/// with all that look like it.
pub open spec fn groups_ok(groups: Seq<Group>, looks: Seq<Look>, pick: Seq<bool>, n: int) -> bool {
    &&& forall|k: int| 0 <= k < groups.len() ==> group_ok(#[trigger] groups[k], looks, pick, n)
    &&& forall|k: int, l: int|
        0 <= k < l < groups.len() ==> (#[trigger] groups[k]).look != (#[trigger] groups[l]).look
    &&& forall|i: usize| i < n && #[trigger] pick[i as int] ==> some_holds(groups, i)
}

fn find_look(groups: &Vec<Group>, look: Look) -> (r: Option<usize>)
    ensures
        r matches Some(k) ==> k < groups@.len() && groups@[k as int].look == look,
        r is None ==> forall|k: int| 0 <= k < groups@.len() ==> (#[trigger] groups@[k]).look != look,
{
    let mut k: usize = 0;
    while k < groups.len()
        invariant
            k <= groups@.len(),
            forall|j: int| 0 <= j < k ==> (#[trigger] groups@[j]).look != look,
        decreases groups.len() - k,
    {
        if groups[k].look == look {
            return Some(k);
        }
        k = k + 1;
    }
    None
}

proof fn lemma_group_grows(g: Group, looks: Seq<Look>, pick: Seq<bool>, n: int)
    requires
        group_ok(g, looks, pick, n),
    ensures
        group_ok(g, looks, pick, n + 1),
{
    assert forall|i: int| 0 <= i < g.members@.len() implies {
        let m = #[trigger] g.members@[i];
        m < n + 1 && pick[m as int] && looks[m as int] == g.look
    } by {
        assert(g.members@[i] < n);
    }
}

proof fn lemma_push_holds(s: Seq<usize>, x: usize, i: usize)
    ensures
        s.push(x).contains(i) <==> s.contains(i) || i == x,
{
    if s.contains(i) {
        let k = s.index_of(i);
        assert(s.push(x)[k] == i);
    }
    assert(s.push(x)[s.len() as int] == x);
}

/// Groups the things that are picked by their look.
pub fn group_by_look(looks: &Vec<Look>, pick: &Vec<bool>) -> (r: Vec<Group>)
    requires
        looks@.len() == pick@.len(),
    ensures
        groups_ok(r@, looks@, pick@, looks@.len() as int),
{
    let mut groups: Vec<Group> = Vec::new();
    let mut i: usize = 0;
    while i < looks.len()
        invariant
            i <= looks@.len(),
            looks@.len() == pick@.len(),
            groups_ok(groups@, looks@, pick@, i as int),
        decreases looks.len() - i,
    {
        let ghost before = groups@;
        let look: Look = looks[i];
        proof {
            assert forall|k: int| 0 <= k < before.len() implies group_ok(#[trigger] before[k], looks@, pick@, i + 1) by {
                lemma_group_grows(before[k], looks@, pick@, i as int);
            }
        }
        if pick[i] {
            match find_look(&groups, look) {
                Some(k) => {
                    let g: &mut Group = &mut groups[k];
                    g.members.push(i);
                    proof {
                        let h = groups@[k as int];
                        let b = before[k as int];
                        assert(group_ok(b, looks@, pick@, i as int));
                        assert(group_ok(h, looks@, pick@, i + 1));
                        assert forall|j: usize| j < i + 1 && #[trigger] pick@[j as int] implies some_holds(groups@, j) by {
                            lemma_push_holds(b.members@, i, j);
                            if j < i {
                                assert(some_holds(before, j));
                                let l = choose|l: int| 0 <= l < before.len() && holds(#[trigger] before[l], j);
                                assert(holds(groups@[l], j));
                            } else {
                                assert(holds(h, j));
                            }
                        }
                    }
                },
                None => {
                    let mut members: Vec<usize> = Vec::new();
                    members.push(i);
                    groups.push(Group { look, members });
                    proof {
                        let h = groups@[before.len() as int];
                        assert(h.members@ =~= seq![i]);
                        assert(group_ok(h, looks@, pick@, i + 1));
                        assert forall|j: usize| j < i + 1 && #[trigger] pick@[j as int] implies some_holds(groups@, j) by {
                            if j < i {
                                assert(some_holds(before, j));
                                let l = choose|l: int| 0 <= l < before.len() && holds(#[trigger] before[l], j);
                                assert(holds(groups@[l], j));
                            } else {
                                assert(h.members@[0] == i);
                                assert(holds(h, j));
                            }
                        }
                    }
                },
            }
        } else {
            assert forall|j: usize| j < i + 1 && #[trigger] pick@[j as int] implies some_holds(groups@, j) by {
                assert(j != i);
                assert(some_holds(before, j));
            }
        }
        i = i + 1;
    }
    groups
}

/// A thing is held by one group alone.
pub proof fn lemma_one_group(groups: Seq<Group>, looks: Seq<Look>, pick: Seq<bool>, n: int, k: int, l: int, i: usize)
    requires
        groups_ok(groups, looks, pick, n),
        0 <= k < groups.len(),
        0 <= l < groups.len(),
        holds(groups[k], i),
        holds(groups[l], i),
    ensures
        k == l,
{
    let a = groups[k].members@.index_of(i);
    let b = groups[l].members@.index_of(i);
    assert(group_ok(groups[k], looks, pick, n));
    assert(group_ok(groups[l], looks, pick, n));
    assert(looks[groups[k].members@[a] as int] == groups[k].look);
    assert(looks[groups[l].members@[b] as int] == groups[l].look);
    if k < l {
        assert(groups[k].look != groups[l].look);
    } else if l < k {
        assert(groups[l].look != groups[k].look);
    }
}

/// How the models of a frame are drawn: some by themselves, others in groups.
#[derive(Debug)]
pub struct Plan {
    pub singles: Vec<usize>,
    pub groups: Vec<Group>,
}

/// Another model looks like one, and both can be drawn together with others.
pub open spec fn has_twin(looks: Seq<Look>, plain: Seq<bool>, i: int) -> bool {
    plain[i] && exists|j: int|
        0 <= j < looks.len() && j != i && #[trigger] plain[j] && looks[j] == looks[i]
}

/// The plan draws every model once: those with a twin in groups, each of them
/// with all that look like it, and the others by themselves.
pub open spec fn plan_ok(p: Plan, looks: Seq<Look>, plain: Seq<bool>) -> bool {
    let n = looks.len() as int;
    &&& p.singles@.no_duplicates()
    &&& forall|i: usize| #[trigger]
        p.singles@.contains(i) <==> i < n && !has_twin(looks, plain, i as int)
    &&& forall|k: int|
        0 <= k < p.groups@.len() ==> group_ok(#[trigger] p.groups@[k], looks, plain, n)
            && p.groups@[k].members@.len() >= 2
    &&& forall|k: int, l: int|
        0 <= k < l < p.groups@.len() ==> (#[trigger] p.groups@[k]).look != (#[trigger] p.groups@[l]).look
    &&& forall|i: usize|
        i < n ==> (#[trigger] some_holds(p.groups@, i) <==> has_twin(looks, plain, i as int))
}

proof fn lemma_twin(groups: Seq<Group>, looks: Seq<Look>, plain: Seq<bool>, k: int, i: usize)
    requires
        looks.len() == plain.len(),
        looks.len() <= usize::MAX,
        groups_ok(groups, looks, plain, looks.len() as int),
        0 <= k < groups.len(),
        holds(groups[k], i),
    ensures
        i < looks.len(),
        plain[i as int],
        has_twin(looks, plain, i as int) <==> groups[k].members@.len() >= 2,
{
    let n = looks.len() as int;
    let m = groups[k].members@;
    assert(group_ok(groups[k], looks, plain, n));
    let a = m.index_of(i);
    assert(m[a] == i);
    if m.len() >= 2 {
        let b = if a == 0 {
            1int
        } else {
            0int
        };
        let j = m[b];
        if a < b {
            assert(m[a] < m[b]);
        } else {
            assert(m[b] < m[a]);
        }
        assert(plain[j as int] && looks[j as int] == looks[i as int]);
    }
    if has_twin(looks, plain, i as int) {
        let j = choose|j: int|
            0 <= j < looks.len() && j != i && #[trigger] plain[j] && looks[j] == looks[i as int];
        let u = j as usize;
        assert(plain[u as int]);
        assert(some_holds(groups, u));
        let l = choose|l: int| 0 <= l < groups.len() && holds(#[trigger] groups[l], u);
        assert(group_ok(groups[l], looks, plain, n));
        let b = groups[l].members@.index_of(u);
        assert(groups[l].members@[b] == u);
        if l < k {
            assert(groups[l].look != groups[k].look);
        } else if k < l {
            assert(groups[k].look != groups[l].look);
        }
        assert(m[b] == u);
    }
}

/// Plans how the models of a frame are drawn: models that are plain and look
/// alike are drawn at once.
pub fn build_plan(looks: &Vec<Look>, plain: &Vec<bool>) -> (r: Plan)
    requires
        looks@.len() == plain@.len(),
    ensures
        plan_ok(r, looks@, plain@),
{
    let all: Vec<Group> = group_by_look(looks, plain);
    let ghost every = all@;
    let ghost n = looks@.len() as int;
    let mut singles: Vec<usize> = Vec::new();
    let mut i: usize = 0;
    while i < plain.len()
        invariant
            i <= plain@.len(),
            singles@.no_duplicates(),
            forall|j: usize| #[trigger] singles@.contains(j) <==> j < i && !plain@[j as int],
        decreases plain.len() - i,
    {
        if !plain[i] {
            let ghost before = singles@;
            assert(!before.contains(i));
            singles.push(i);
            proof {
                assert forall|j: usize| #[trigger] singles@.contains(j) <==> j < i + 1 && !plain@[j as int] by {
                    lemma_push_holds(before, i, j);
                    assert(before.contains(j) <==> j < i && !plain@[j as int]);
                }
                lemma_push_distinct(before, i);
            }
        }
        i = i + 1;
    }
    let mut groups: Vec<Group> = Vec::new();
    let ghost mut kept: Seq<int> = Seq::empty();
    for g in it: all
        invariant
            it.seq() == every,
            n == looks@.len(),
            looks@.len() == plain@.len(),
            groups_ok(every, looks@, plain@, n),
            kept.len() == groups@.len(),
            forall|a: int|
                0 <= a < kept.len() ==> 0 <= #[trigger] kept[a] < it.index() && groups@[a] == every[kept[a]]
                    && every[kept[a]].members@.len() >= 2,
            forall|a: int, b: int| 0 <= a < b < kept.len() ==> #[trigger] kept[a] < #[trigger] kept[b],
            forall|k: int|
                0 <= k < it.index() && (#[trigger] every[k]).members@.len() >= 2 ==> kept.contains(k),
            singles@.no_duplicates(),
            forall|j: usize| #[trigger]
                singles@.contains(j) <==> (j < n && !plain@[j as int]) || exists|k: int|
                    0 <= k < it.index() && (#[trigger] every[k]).members@ == seq![j],
    {
        let ghost k = it.index() as int;
        let ghost before = singles@;
        let ghost kept0 = kept;
        assert(g == every[k]);
        assert(group_ok(every[k], looks@, plain@, n));
        if g.members.len() < 2 {
            let x: usize = g.members[0];
            proof {
                assert(every[k].members@ =~= seq![x]);
                assert(every[k].members@[0] == x);
                assert(!before.contains(x)) by {
                    if before.contains(x) {
                        assert(plain@[x as int]);
                        let l = choose|l: int| 0 <= l < k && (#[trigger] every[l]).members@ == seq![x];
                        assert(every[l].members@[0] == x);
                        assert(holds(every[l], x));
                        assert(holds(every[k], x));
                        lemma_one_group(every, looks@, plain@, n, k, l, x);
                    }
                }
            }
            singles.push(x);
            proof {
                lemma_push_distinct(before, x);
                assert forall|j: usize| #[trigger] singles@.contains(j) <==> (j < n && !plain@[j as int]) || exists|l: int|
                    0 <= l < k + 1 && (#[trigger] every[l]).members@ == seq![j] by {
                    lemma_push_holds(before, x, j);
                    assert(before.contains(j) <==> (j < n && !plain@[j as int]) || exists|l: int|
                        0 <= l < k && (#[trigger] every[l]).members@ == seq![j]);
                    if j == x {
                        assert(every[k].members@ == seq![j]);
                    }
                    if exists|l: int| 0 <= l < k + 1 && (#[trigger] every[l]).members@ == seq![j] {
                        let l = choose|l: int| 0 <= l < k + 1 && (#[trigger] every[l]).members@ == seq![j];
                        if l == k {
                            assert(seq![j][0] == seq![x][0]);
                        }
                    }
                }
            }
        } else {
            groups.push(g);
            proof {
                kept = kept.push(k);
                assert forall|l: int| 0 <= l < k + 1 && (#[trigger] every[l]).members@.len() >= 2 implies kept.contains(l) by {
                    if l < k {
                        assert(kept0.contains(l));
                        let a = kept0.index_of(l);
                        assert(kept[a] == l);
                    } else {
                        assert(kept[kept0.len() as int] == k);
                    }
                }
                assert forall|j: usize| #[trigger] singles@.contains(j) <==> (j < n && !plain@[j as int]) || exists|l: int|
                    0 <= l < k + 1 && (#[trigger] every[l]).members@ == seq![j] by {
                    assert(before.contains(j) <==> (j < n && !plain@[j as int]) || exists|l: int|
                        0 <= l < k && (#[trigger] every[l]).members@ == seq![j]);
                    if exists|l: int| 0 <= l < k + 1 && (#[trigger] every[l]).members@ == seq![j] {
                        let l = choose|l: int| 0 <= l < k + 1 && (#[trigger] every[l]).members@ == seq![j];
                        assert(every[l].members@.len() == 1);
                    }
                }
            }
        }
    }
    let p: Plan = Plan { singles, groups };
    proof {
        lemma_plan(p, every, kept, looks@, plain@);
    }
    p
}

proof fn lemma_push_distinct(s: Seq<usize>, x: usize)
    requires
        s.no_duplicates(),
        !s.contains(x),
    ensures
        s.push(x).no_duplicates(),
{
    let t = s.push(x);
    assert forall|i: int, j: int| 0 <= i < t.len() && 0 <= j < t.len() && i != j implies t[i] != t[j] by {
        if i == s.len() {
            assert(s.contains(s[j]));
        } else if j == s.len() {
            assert(s.contains(s[i]));
        }
    }
}

proof fn lemma_plan(p: Plan, every: Seq<Group>, kept: Seq<int>, looks: Seq<Look>, plain: Seq<bool>)
    requires
        looks.len() == plain.len(),
        looks.len() <= usize::MAX,
        groups_ok(every, looks, plain, looks.len() as int),
        kept.len() == p.groups@.len(),
        forall|a: int|
            0 <= a < kept.len() ==> 0 <= #[trigger] kept[a] < every.len() && p.groups@[a] == every[kept[a]]
                && every[kept[a]].members@.len() >= 2,
        forall|a: int, b: int| 0 <= a < b < kept.len() ==> #[trigger] kept[a] < #[trigger] kept[b],
        forall|k: int|
            0 <= k < every.len() && (#[trigger] every[k]).members@.len() >= 2 ==> kept.contains(k),
        p.singles@.no_duplicates(),
        forall|j: usize| #[trigger]
            p.singles@.contains(j) <==> (j < looks.len() && !plain[j as int]) || exists|k: int|
                0 <= k < every.len() && (#[trigger] every[k]).members@ == seq![j],
    ensures
        plan_ok(p, looks, plain),
{
    let n = looks.len() as int;
    assert forall|k: int| 0 <= k < p.groups@.len() implies group_ok(#[trigger] p.groups@[k], looks, plain, n)
        && p.groups@[k].members@.len() >= 2 by {
        assert(p.groups@[k] == every[kept[k]]);
        assert(group_ok(every[kept[k]], looks, plain, n));
    }
    assert forall|k: int, l: int| 0 <= k < l < p.groups@.len() implies (#[trigger] p.groups@[k]).look != (#[trigger] p.groups@[l]).look by {
        assert(p.groups@[k] == every[kept[k]] && p.groups@[l] == every[kept[l]]);
        assert(kept[k] < kept[l]);
        assert(every[kept[k]].look != every[kept[l]].look);
    }
    assert forall|i: usize| i < n implies (#[trigger] some_holds(p.groups@, i) <==> has_twin(looks, plain, i as int)) by {
        if some_holds(p.groups@, i) {
            let a = choose|a: int| 0 <= a < p.groups@.len() && holds(#[trigger] p.groups@[a], i);
            assert(p.groups@[a] == every[kept[a]]);
            lemma_twin(every, looks, plain, kept[a], i);
        }
        if has_twin(looks, plain, i as int) {
            assert(plain[i as int]);
            assert(some_holds(every, i));
            let k = choose|k: int| 0 <= k < every.len() && holds(#[trigger] every[k], i);
            lemma_twin(every, looks, plain, k, i);
            assert(kept.contains(k));
            let a = kept.index_of(k);
            assert(p.groups@[a] == every[kept[a]]);
            assert(holds(p.groups@[a], i));
        }
    }
    assert forall|i: usize| #[trigger] p.singles@.contains(i) <==> i < n && !has_twin(looks, plain, i as int) by {
        if i < n && plain[i as int] {
            assert(some_holds(every, i));
            let k = choose|k: int| 0 <= k < every.len() && holds(#[trigger] every[k], i);
            lemma_twin(every, looks, plain, k, i);
            let a = every[k].members@.index_of(i);
            assert(every[k].members@[a] == i);
            assert(group_ok(every[k], looks, plain, n));
            if every[k].members@.len() < 2 {
                assert(every[k].members@ =~= seq![i]);
            }
            if p.singles@.contains(i) {
                let l = choose|l: int| 0 <= l < every.len() && (#[trigger] every[l]).members@ == seq![i];
                assert(every[l].members@[0] == i);
                assert(holds(every[l], i));
                lemma_one_group(every, looks, plain, n, k, l, i);
            }
        }
        if p.singles@.contains(i) && !(i < n && !plain[i as int]) {
            let l = choose|l: int| 0 <= l < every.len() && (#[trigger] every[l]).members@ == seq![i];
            assert(every[l].members@[0] == i);
            assert(group_ok(every[l], looks, plain, n));
            assert(every[l].members@[0] < n);
        }
    }
}

/// Every model of a frame is drawn, and none twice.
pub proof fn lemma_plan_draws_all(p: Plan, looks: Seq<Look>, plain: Seq<bool>, i: usize)
    requires
        plan_ok(p, looks, plain),
        i < looks.len(),
    ensures
        p.singles@.contains(i) <==> !some_holds(p.groups@, i),
{
    assert(p.singles@.contains(i) <==> !has_twin(looks, plain, i as int));
}

/// The matrices of the first `k` groups: one for each part of each model.
pub open spec fn slots_before(sizes: Seq<usize>, parts: Seq<usize>, k: int) -> int
    decreases k,
{
    if k <= 0 {
        0
    } else {
        slots_before(sizes, parts, k - 1) + parts[k - 1] * sizes[k - 1]
    }
}

/// Where the matrix of a part of a member of a group stands.
pub open spec fn slot(sizes: Seq<usize>, parts: Seq<usize>, k: int, part: int, member: int) -> int {
    slots_before(sizes, parts, k) + part * sizes[k] + member
}

proof fn lemma_slots_grow(sizes: Seq<usize>, parts: Seq<usize>, k: int, l: int)
    requires
        0 <= k <= l,
    ensures
        0 <= slots_before(sizes, parts, k) <= slots_before(sizes, parts, l),
    decreases l,
{
    if l > 0 {
        if k < l {
            lemma_slots_grow(sizes, parts, k, l - 1);
        } else {
            lemma_slots_grow(sizes, parts, k - 1, l - 1);
        }
        assert(parts[l - 1] * sizes[l - 1] >= 0) by (nonlinear_arith)
            requires
                parts[l - 1] >= 0,
                sizes[l - 1] >= 0,
        ;
    }
}

/// Where the matrices of each group start, and how many there are.
pub fn layout(sizes: &Vec<usize>, parts: &Vec<usize>) -> (r: (Vec<usize>, usize))
    requires
        sizes@.len() == parts@.len(),
        slots_before(sizes@, parts@, sizes@.len() as int) <= usize::MAX,
    ensures
        r.0@.len() == sizes@.len(),
        forall|k: int| 0 <= k < r.0@.len() ==> #[trigger] r.0@[k] == slots_before(sizes@, parts@, k),
        r.1 == slots_before(sizes@, parts@, sizes@.len() as int),
{
    let mut bases: Vec<usize> = Vec::new();
    let mut total: usize = 0;
    let mut k: usize = 0;
    while k < sizes.len()
        invariant
            k <= sizes@.len(),
            sizes@.len() == parts@.len(),
            slots_before(sizes@, parts@, sizes@.len() as int) <= usize::MAX,
            total == slots_before(sizes@, parts@, k as int),
            bases@.len() == k,
            forall|j: int| 0 <= j < k ==> #[trigger] bases@[j] == slots_before(sizes@, parts@, j),
        decreases sizes.len() - k,
    {
        bases.push(total);
        proof {
            lemma_slots_grow(sizes@, parts@, k as int, k as int);
            lemma_slots_grow(sizes@, parts@, k + 1, sizes@.len() as int);
        }
        total = total + parts[k] * sizes[k];
        k = k + 1;
    }
    (bases, total)
}

/// Every matrix has a place of its own, and all places are filled: none lies
/// beyond the last.
pub proof fn lemma_slots(
    sizes: Seq<usize>,
    parts: Seq<usize>,
    k: int,
    p: int,
    m: int,
    l: int,
    q: int,
    o: int,
)
    requires
        sizes.len() == parts.len(),
        0 <= k < sizes.len(),
        0 <= p < parts[k],
        0 <= m < sizes[k],
        0 <= l < sizes.len(),
        0 <= q < parts[l],
        0 <= o < sizes[l],
    ensures
        0 <= slot(sizes, parts, k, p, m) < slots_before(sizes, parts, sizes.len() as int),
        slot(sizes, parts, k, p, m) == slot(sizes, parts, l, q, o) ==> k == l && p == q && m == o,
{
    lemma_slot_in_group(sizes, parts, k, p, m);
    lemma_slot_in_group(sizes, parts, l, q, o);
    lemma_slots_grow(sizes, parts, k + 1, sizes.len() as int);
    lemma_slots_grow(sizes, parts, k, k);
    if k < l {
        lemma_slots_grow(sizes, parts, k + 1, l);
    } else if l < k {
        lemma_slots_grow(sizes, parts, l + 1, k);
    } else if slot(sizes, parts, k, p, m) == slot(sizes, parts, l, q, o) {
        let n = sizes[k] as int;
        assert(p == q) by (nonlinear_arith)
            requires
                p * n + m == q * n + o,
                0 <= m < n,
                0 <= o < n,
        ;
    }
}

proof fn lemma_slot_in_group(sizes: Seq<usize>, parts: Seq<usize>, k: int, p: int, m: int)
    requires
        0 <= k < sizes.len(),
        sizes.len() == parts.len(),
        0 <= p < parts[k],
        0 <= m < sizes[k],
    ensures
        slots_before(sizes, parts, k) <= slot(sizes, parts, k, p, m) < slots_before(
            sizes,
            parts,
            k + 1,
        ),
{
    let n = sizes[k] as int;
    let c = parts[k] as int;
    assert(0 <= p * n && p * n + m < c * n) by (nonlinear_arith)
        requires
            0 <= p < c,
            0 <= m < n,
    ;
}

/// A room for matrices that was doubled `k` times.
pub open spec fn room(k: nat) -> int
    decreases k,
{
    if k == 0 {
        1024
    } else {
        2 * room((k - 1) as nat)
    }
}

/// The room for matrices after `n` of them are needed: what there is where it is
/// enough, else the least that is.
pub open spec fn room_for(have: Option<usize>, n: usize, r: usize) -> bool {
    let need: usize = if n == 0 {
        1
    } else {
        n
    };
    if have is Some && have->0 >= need {
        r == have->0
    } else {
        exists|k: nat| r == #[trigger] room(k) && r >= need && (k > 0 ==> room((k - 1) as nat) < need)
    }
}

/// The room for matrices, and whether it must be made anew.
pub fn ensure_inst_buf(have: Option<usize>, n: usize) -> (r: (usize, bool))
    requires
        n <= 0x4000_0000,
    ensures
        room_for(have, n, r.0),
        r.1 == !(have is Some && have->0 >= (if n == 0 {
            1
        } else {
            n
        })),
{
    let need: usize = if n == 0 {
        1
    } else {
        n
    };
    match have {
        Some(cap) => {
            if cap >= need {
                return (cap, false);
            }
        },
        None => {},
    }
    let mut cap: usize = 1024;
    let ghost mut k: nat = 0;
    while cap < need
        invariant
            need <= 0x4000_0000,
            cap == room(k),
            cap >= 1024,
            cap <= 0x8000_0000,
            k > 0 ==> room((k - 1) as nat) < need,
        decreases 0x8000_0000 - cap,
    {
        cap = cap * 2;
        proof {
            k = k + 1;
        }
    }
    (cap, true)
}

/// The size of the depth buffer for a target: what there is where it fits, else
/// one that is not empty.
pub fn ensure_depth(have: Option<(u32, u32)>, w: u32, h: u32) -> (r: Option<(u32, u32)>)
    ensures
        r == if have == Some((w, h)) {
            None
        } else {
            Some(
                (
                    if w == 0 {
                        1u32
                    } else {
                        w
                    },
                    if h == 0 {
                        1u32
                    } else {
                        h
                    },
                ),
            )
        },
{
    match have {
        Some(s) => {
            if s.0 == w && s.1 == h {
                return None;
            }
        },
        None => {},
    }
    let dw: u32 = if w == 0 {
        1
    } else {
        w
    };
    let dh: u32 = if h == 0 {
        1
    } else {
        h
    };
    Some((dw, dh))
}

/// The uploads of models in a frame.
pub const UPLOADS_PER_FRAME: u32 = 2;

/// What becomes of a model that is to be drawn.
#[derive(Clone, Copy, PartialEq, Eq, Structural, Debug)]
pub enum Upload {
    /// It can be drawn.
    There,
    /// It cannot be drawn yet.
    Later,
    /// It is uploaded now.
    Now(LoadedModel),
}

/// What becomes of a model that is to be drawn: it is uploaded where it is read
/// and the frame has not had its uploads.
pub fn ensure_model(reg: &mut Registry, there: bool, key: &str, budget: &mut u32) -> (r: Upload)
    requires
        old(reg).wf(),
    ensures
        final(reg).wf(),
        final(reg).shelf() == old(reg).shelf(),
        ({
            let read = ready(old(reg).loads(), key@);
            &&& r == if there {
                Upload::There
            } else if *old(budget) == 0 || read is None {
                Upload::Later
            } else {
                Upload::Now(read->0)
            }
            &&& *final(budget) == if r is Now {
                (*old(budget) - 1) as u32
            } else {
                *old(budget)
            }
            &&& final(reg).loads() == if there || *old(budget) == 0 {
                old(reg).loads()
            } else {
                request(old(reg).loads(), key@)
            }
        }),
{
    if there {
        return Upload::There;
    }
    if *budget == 0 {
        return Upload::Later;
    }
    match get(reg, key) {
        Some(m) => {
            *budget = *budget - 1;
            Upload::Now(m)
        },
        None => Upload::Later,
    }
}

/// What keeps a model from being drawn together with others.
#[derive(Clone, Copy, PartialEq, Eq, Structural, Debug)]
pub struct Extras {
    /// Its chain runs along a path.
    pub on_track: bool,
    /// Its head is cut off.
    pub head_clip: bool,
    /// Only a half of it is drawn.
    pub half: bool,
    pub tinted: bool,
    pub see_through: bool,
    pub morphed: bool,
    /// Its parts stand as they do at rest.
    pub at_rest: bool,
}

/// Whether a model can be drawn together with others.
pub fn is_plain(e: &Extras) -> (r: bool)
    ensures
        r == (e.at_rest && !e.on_track && !e.head_clip && !e.half && !e.tinted && !e.see_through
            && !e.morphed),
{
    e.at_rest && !e.on_track && !e.head_clip && !e.half && !e.tinted && !e.see_through && !e.morphed
}

/// Whether the parts of a model stand as they do at rest: no clip runs, and
/// nothing poses them.
pub fn rests(clip_at_start: bool, has_pose_nodes: bool, turned: bool, driven: bool) -> (r: bool)
    ensures
        r == (clip_at_start && !(has_pose_nodes && (turned || driven))),
{
    clip_at_start && !(has_pose_nodes && (turned || driven))
}

/// The key of a model and the name of a material are those of the arcs of an
/// accumulator.
pub open spec fn arc_part(key: Seq<char>, material: Seq<char>) -> bool {
    has_text(key, "accumulator"@) && material == "mat9"@
}

/// Whether a part is the arcs of an accumulator.
pub fn is_arc_prim(key: &str, material: &str) -> (r: bool)
    ensures
        r == arc_part(key@, material@),
{
    contains(key, "accumulator") && str_eq(material, "mat9")
}

/// Whether a model is a lamp, which lights what is near it at night.
pub fn is_lamp(key: &str) -> (r: bool)
    ensures
        r == has_text(key@, "small-lamp"@),
{
    contains(key, "small-lamp")
}

/// The most lamps that light a frame.
pub const MAX_LAMPS: usize = 16;

/// The bones of a skin that are used.
pub const MAX_BONES: usize = 96;

/// How many bones of a skin are used.
pub fn bones_used(n: usize) -> (r: usize)
    ensures
        r == if n < MAX_BONES {
            n
        } else {
            MAX_BONES
        },
{
    if n < MAX_BONES {
        n
    } else {
        MAX_BONES
    }
}

/// The segments of a wire, the vertices of a segment, and the most vertices.
pub const WIRE_SEGS: usize = 8;

pub const SEG_VERTS: usize = 12;

pub const WIRE_MAX_VERTS: usize = 131072;

/// The most wires that are drawn: so many that their vertices fit.
pub const MAX_WIRES_DRAWN: usize = 1365;

/// The first `max` of the first `n` things that are marked.
pub open spec fn first_marked(marks: Seq<bool>, max: int, n: int) -> Seq<usize>
    decreases n,
{
    if n <= 0 {
        Seq::empty()
    } else {
        let before = first_marked(marks, max, n - 1);
        if marks[n - 1] && before.len() < max {
            before.push((n - 1) as usize)
        } else {
            before
        }
    }
}

/// The first `max` things that are marked: lamps, and wires in view.
pub fn take_marked(marks: &Vec<bool>, max: usize) -> (r: Vec<usize>)
    ensures
        r@ == first_marked(marks@, max as int, marks@.len() as int),
{
    let mut out: Vec<usize> = Vec::new();
    let mut i: usize = 0;
    while i < marks.len()
        invariant
            i <= marks@.len(),
            out@ == first_marked(marks@, max as int, i as int),
        decreases marks.len() - i,
    {
        if marks[i] && out.len() < max {
            out.push(i);
        }
        i = i + 1;
    }
    out
}

/// The vertices of the wires that are drawn fit, and those of one more would
/// not.
pub proof fn lemma_wires_fit(marks: Seq<bool>, n: int)
    ensures
        first_marked(marks, MAX_WIRES_DRAWN as int, n).len() * (WIRE_SEGS * SEG_VERTS)
            <= WIRE_MAX_VERTS,
        (MAX_WIRES_DRAWN + 1) * (WIRE_SEGS * SEG_VERTS) > WIRE_MAX_VERTS,
    decreases n,
{
    lemma_marked_len(marks, MAX_WIRES_DRAWN as int, n);
}

proof fn lemma_marked_len(marks: Seq<bool>, max: int, n: int)
    requires
        0 <= max,
    ensures
        first_marked(marks, max, n).len() <= max,
    decreases n,
{
    if n > 0 {
        lemma_marked_len(marks, max, n - 1);
    }
}

/// What is done for a model that is to be drawn.
#[derive(Clone, Copy, PartialEq, Eq, Structural, Debug)]
pub enum Prepare {
    /// It is not drawn in this frame.
    Skip,
    /// It is uploaded, and then looked at again; where the upload fails, it is
    /// not drawn.
    UploadModel(LoadedModel),
    /// The model that it is scaled by is uploaded.
    UploadScale(LoadedModel),
    Draw,
}

/// What is done for a model that is to be drawn, and what becomes of the models
/// that are asked for.
pub open spec fn prepare_of(
    l: Loads,
    on_screen: bool,
    there: bool,
    scale_there: bool,
    key: Seq<char>,
    scale: Seq<char>,
    budget: u32,
) -> (Prepare, Loads) {
    if !on_screen {
        (Prepare::Skip, l)
    } else if !there {
        if budget == 0 {
            (Prepare::Skip, l)
        } else {
            match ready(l, key) {
                Some(m) => (Prepare::UploadModel(m), request(l, key)),
                None => (Prepare::Skip, request(l, key)),
            }
        }
    } else if key != scale && !scale_there {
        if budget == 0 {
            (Prepare::Skip, l)
        } else {
            match ready(l, scale) {
                Some(m) => (Prepare::UploadScale(m), request(l, scale)),
                None => (Prepare::Skip, request(l, scale)),
            }
        }
    } else {
        (Prepare::Draw, l)
    }
}

/// What is done for a model that is to be drawn: what is out of view is skipped,
/// and what is not there is uploaded, as far as the uploads of the frame go.
pub fn prepare_instance(
    reg: &mut Registry,
    on_screen: bool,
    there: bool,
    scale_there: bool,
    key: &str,
    scale: &str,
    budget: &mut u32,
) -> (r: Prepare)
    requires
        old(reg).wf(),
    ensures
        final(reg).wf(),
        final(reg).shelf() == old(reg).shelf(),
        (r, final(reg).loads()) == prepare_of(
            old(reg).loads(),
            on_screen,
            there,
            scale_there,
            key@,
            scale@,
            *old(budget),
        ),
        *final(budget) == if r is UploadModel || r is UploadScale {
            (*old(budget) - 1) as u32
        } else {
            *old(budget)
        },
{
    if !on_screen {
        return Prepare::Skip;
    }
    match ensure_model(reg, there, key, budget) {
        Upload::Later => {
            return Prepare::Skip;
        },
        Upload::Now(m) => {
            return Prepare::UploadModel(m);
        },
        Upload::There => {},
    }
    if !str_eq(key, scale) {
        match ensure_model(reg, scale_there, scale, budget) {
            Upload::Later => {
                return Prepare::Skip;
            },
            Upload::Now(m) => {
                return Prepare::UploadScale(m);
            },
            Upload::There => {},
        }
    }
    Prepare::Draw
}

/// A part of a model.
#[derive(Clone, Copy, PartialEq, Eq, Structural, Debug)]
pub struct PartInfo {
    /// It is the arcs of an accumulator.
    pub arc: bool,
    /// It is a chain that runs along a path.
    pub track: bool,
}

/// A model: its parts, and whether there is a path for its chains.
#[derive(Debug)]
pub struct ModelInfo {
    pub parts: Vec<PartInfo>,
    pub has_path: bool,
}

/// A model that is drawn in a frame.
#[derive(Clone, Copy, PartialEq, Eq, Structural, Debug)]
pub struct DrawItem {
    /// The number of the model.
    pub model: usize,
    pub active: bool,
    pub opaque: bool,
    /// Its chains run.
    pub on_track: bool,
}

/// A draw.
#[derive(Clone, Copy, PartialEq, Eq, Structural, Debug)]
pub enum DrawCall {
    /// A part of all members of a group, whose matrices start at a slot.
    Instanced { group: usize, part: usize, slot: usize, count: usize },
    /// The path of the chains of a model is set.
    Path(usize),
    /// A part of a single model, and whether it runs along the path.
    Single { item: usize, part: usize, on_track: bool },
}

/// The draws of the first `p` parts of a group.
pub open spec fn group_part_calls(
    parts: Seq<PartInfo>,
    group: int,
    base: int,
    count: int,
    active: bool,
    p: int,
) -> Seq<DrawCall>
    decreases p,
{
    if p <= 0 {
        Seq::empty()
    } else {
        let before = group_part_calls(parts, group, base, count, active, p - 1);
        if parts[p - 1].arc && !active {
            before
        } else {
            before.push(
                DrawCall::Instanced {
                    group: group as usize,
                    part: (p - 1) as usize,
                    slot: (base + (p - 1) * count) as usize,
                    count: count as usize,
                },
            )
        }
    }
}

/// The draws of the first `k` groups.
pub open spec fn group_calls(
    groups: Seq<Group>,
    bases: Seq<usize>,
    items: Seq<DrawItem>,
    models: Seq<ModelInfo>,
    k: int,
) -> Seq<DrawCall>
    decreases k,
{
    if k <= 0 {
        Seq::empty()
    } else {
        let g = groups[k - 1];
        let parts = models[items[g.members@[0] as int].model as int].parts@;
        group_calls(groups, bases, items, models, k - 1) + group_part_calls(
            parts,
            k - 1,
            bases[k - 1] as int,
            g.members@.len() as int,
            g.look.active,
            parts.len() as int,
        )
    }
}

/// The draws of the first `p` parts of a single model.
pub open spec fn single_part_calls(parts: Seq<PartInfo>, item: int, d: DrawItem, p: int) -> Seq<DrawCall>
    decreases p,
{
    if p <= 0 {
        Seq::empty()
    } else {
        let before = single_part_calls(parts, item, d, p - 1);
        if parts[p - 1].arc && !d.active {
            before
        } else {
            before.push(
                DrawCall::Single {
                    item: item as usize,
                    part: (p - 1) as usize,
                    on_track: d.on_track && parts[p - 1].track,
                },
            )
        }
    }
}

/// The draws of a single model. What is see-through casts no shadow.
pub open spec fn item_calls(items: Seq<DrawItem>, models: Seq<ModelInfo>, shadow: bool, i: int) -> Seq<DrawCall> {
    let d = items[i];
    let m = models[d.model as int];
    if shadow && !d.opaque {
        Seq::empty()
    } else {
        (if d.on_track && m.has_path {
            seq![DrawCall::Path(i as usize)]
        } else {
            Seq::empty()
        }) + single_part_calls(m.parts@, i, d, m.parts@.len() as int)
    }
}

/// The draws of the first `k` single models.
pub open spec fn single_calls(
    singles: Seq<usize>,
    items: Seq<DrawItem>,
    models: Seq<ModelInfo>,
    shadow: bool,
    k: int,
) -> Seq<DrawCall>
    decreases k,
{
    if k <= 0 {
        Seq::empty()
    } else {
        single_calls(singles, items, models, shadow, k - 1) + item_calls(
            items,
            models,
            shadow,
            singles[k - 1] as int,
        )
    }
}

/// Everything that the plan names is there, and the slots fit.
pub open spec fn drawable(
    p: Plan,
    bases: Seq<usize>,
    items: Seq<DrawItem>,
    models: Seq<ModelInfo>,
) -> bool {
    &&& bases.len() == p.groups@.len()
    &&& forall|i: int| 0 <= i < items.len() ==> (#[trigger] items[i]).model < models.len()
    &&& forall|i: int| 0 <= i < p.singles@.len() ==> #[trigger] p.singles@[i] < items.len()
    &&& forall|k: int|
        0 <= k < p.groups@.len() ==> {
            let g = #[trigger] p.groups@[k];
            &&& g.members@.len() > 0
            &&& g.members@[0] < items.len()
            &&& bases[k] + models[items[g.members@[0] as int].model as int].parts@.len()
                * g.members@.len() <= usize::MAX
        }
}

fn add_group(parts: &Vec<PartInfo>, group: usize, base: usize, count: usize, active: bool, out: &mut Vec<DrawCall>)
    requires
        base + parts@.len() * count <= usize::MAX,
    ensures
        final(out)@ == old(out)@ + group_part_calls(
            parts@,
            group as int,
            base as int,
            count as int,
            active,
            parts@.len() as int,
        ),
{
    let mut p: usize = 0;
    assert(out@ =~= out@ + group_part_calls(parts@, group as int, base as int, count as int, active, 0));
    while p < parts.len()
        invariant
            p <= parts@.len(),
            base + parts@.len() * count <= usize::MAX,
            out@ == old(out)@ + group_part_calls(
                parts@,
                group as int,
                base as int,
                count as int,
                active,
                p as int,
            ),
        decreases parts.len() - p,
    {
        if !(parts[p].arc && !active) {
            assert(0 <= p * count <= parts@.len() * count) by (nonlinear_arith)
                requires
                    p < parts@.len(),
                    0 <= count,
            ;
            out.push(DrawCall::Instanced { group, part: p, slot: base + p * count, count });
        }
        p = p + 1;
        assert(out@ =~= old(out)@ + group_part_calls(
            parts@,
            group as int,
            base as int,
            count as int,
            active,
            p as int,
        ));
    }
}

fn add_single(m: &ModelInfo, item: usize, d: &DrawItem, out: &mut Vec<DrawCall>)
    ensures
        final(out)@ == old(out)@ + single_part_calls(
            m.parts@,
            item as int,
            *d,
            m.parts@.len() as int,
        ),
{
    let mut p: usize = 0;
    assert(out@ =~= out@ + single_part_calls(m.parts@, item as int, *d, 0));
    while p < m.parts.len()
        invariant
            p <= m.parts@.len(),
            out@ == old(out)@ + single_part_calls(m.parts@, item as int, *d, p as int),
        decreases m.parts.len() - p,
    {
        if !(m.parts[p].arc && !d.active) {
            out.push(
                DrawCall::Single { item, part: p, on_track: d.on_track && m.parts[p].track },
            );
        }
        p = p + 1;
        assert(out@ =~= old(out)@ + single_part_calls(m.parts@, item as int, *d, p as int));
    }
}

/// The draws of a pass over all models of a frame: groups first, then the single
/// ones.
pub fn draw_prims(
    plan: &Plan,
    bases: &Vec<usize>,
    items: &Vec<DrawItem>,
    models: &Vec<ModelInfo>,
    shadow: bool,
) -> (r: Vec<DrawCall>)
    requires
        drawable(*plan, bases@, items@, models@),
    ensures
        r@ == group_calls(
            plan.groups@,
            bases@,
            items@,
            models@,
            plan.groups@.len() as int,
        ) + single_calls(
            plan.singles@,
            items@,
            models@,
            shadow,
            plan.singles@.len() as int,
        ),
{
    let mut out: Vec<DrawCall> = Vec::new();
    let mut k: usize = 0;
    while k < plan.groups.len()
        invariant
            k <= plan.groups@.len(),
            drawable(*plan, bases@, items@, models@),
            out@ == group_calls(plan.groups@, bases@, items@, models@, k as int),
        decreases plan.groups.len() - k,
    {
        let g: &Group = &plan.groups[k];
        assert(plan.groups@[k as int].members@.len() > 0);
        let first: usize = g.members[0];
        assert(items@[first as int].model < models@.len());
        let m: &ModelInfo = &models[items[first].model];
        add_group(&m.parts, k, bases[k], g.members.len(), g.look.active, &mut out);
        k = k + 1;
    }
    let ghost grouped = out@;
    let mut i: usize = 0;
    assert(out@ =~= grouped + single_calls(plan.singles@, items@, models@, shadow, 0));
    while i < plan.singles.len()
        invariant
            i <= plan.singles@.len(),
            drawable(*plan, bases@, items@, models@),
            out@ == grouped + single_calls(plan.singles@, items@, models@, shadow, i as int),
        decreases plan.singles.len() - i,
    {
        let ghost before = out@;
        let at: usize = plan.singles[i];
        assert(plan.singles@[i as int] < items@.len());
        let d: DrawItem = items[at];
        assert(items@[at as int].model < models@.len());
        let m: &ModelInfo = &models[d.model];
        if !(shadow && !d.opaque) {
            if d.on_track && m.has_path {
                out.push(DrawCall::Path(at));
            }
            add_single(m, at, &d, &mut out);
        }
        assert(out@ =~= before + item_calls(items@, models@, shadow, at as int));
        i = i + 1;
        assert(out@ =~= grouped + single_calls(plan.singles@, items@, models@, shadow, i as int));
    }
    out
}

/// What is drawn of the models of a frame.
#[derive(Clone, Copy, PartialEq, Eq, Structural, Debug)]
pub struct ModelPasses {
    pub shadows: bool,
    pub models: bool,
    pub wires: bool,
}

/// There is something to draw and a view of at least half a tile.
pub open spec fn in_sight(any_instance: bool, any_wire: bool, view: ViewRect) -> bool {
    (any_instance || any_wire) && view.span_x >= 128 && view.span_y >= 128
}

/// Whether the models of a frame are prepared at all. Where they are not, none is
/// asked for and none is uploaded.
pub fn prepares(any_instance: bool, any_wire: bool, view: &ViewRect) -> (r: bool)
    ensures
        r == in_sight(any_instance, any_wire, *view),
{
    (any_instance || any_wire) && view.span_x >= 128 && view.span_y >= 128
}

/// What is drawn of the models of a frame: nothing where there is nothing in
/// view, or no view. Shadows are left out where the sun is too low or the view
/// too wide.
pub fn draw(
    any_instance: bool,
    any_wire: bool,
    view: &ViewRect,
    prepared: usize,
    wires_in_view: usize,
    sun_high: bool,
    shadows_wanted: bool,
) -> (r: Option<ModelPasses>)
    ensures
        r == if !in_sight(any_instance, any_wire, *view) || (prepared == 0 && wires_in_view == 0) {
            None
        } else {
            Some(
                ModelPasses {
                    shadows: sun_high && shadows_wanted,
                    models: true,
                    wires: wires_in_view > 0,
                },
            )
        },
{
    if !prepares(any_instance, any_wire, view) {
        return None;
    }
    if prepared == 0 && wires_in_view == 0 {
        return None;
    }
    Some(
        ModelPasses { shadows: sun_high && shadows_wanted, models: true, wires: wires_in_view > 0 },
    )
}

/// Two models are drawn together exactly where both are plain and look alike; every
/// other one is drawn by itself, and all of a group's members look like its first.
pub proof fn lemma_drawn_together(looks: &Vec<Look>, plain: &Vec<bool>, p: Plan, i: usize, j: usize)
    requires
        looks@.len() == plain@.len(),
        call_ensures(build_plan, (looks, plain), p),
        i < looks@.len(),
        j < looks@.len(),
        i != j,
    ensures
        plain@[i as int] && plain@[j as int] && looks@[i as int] == looks@[j as int] ==> exists|g: int|
            0 <= g < p.groups@.len() && (#[trigger] p.groups@[g]).members@.contains(i)
                && p.groups@[g].members@.contains(j),
        !plain@[i as int] ==> p.singles@.contains(i),
        p.singles@.contains(i) ==> !(plain@[i as int] && plain@[j as int] && looks@[i as int] == looks@[j as int]),
        forall|g: int|
            0 <= g < p.groups@.len() && (#[trigger] p.groups@[g]).members@.contains(i) ==> plain@[i as int]
                && looks@[i as int] == p.groups@[g].look,
{
    let l = looks@;
    let q = plain@;
    assert forall|g: int| 0 <= g < p.groups@.len() && (#[trigger] p.groups@[g]).members@.contains(i) implies q[i as int]
        && l[i as int] == p.groups@[g].look by {
        let m = p.groups@[g].members@;
        assert(group_ok(p.groups@[g], l, q, l.len() as int));
        let k = choose|k: int| 0 <= k < m.len() && m[k] == i;
        assert(m[k] == i);
    }
    if q[i as int] && q[j as int] && l[i as int] == l[j as int] {
        assert(q[j as int]);
        assert(has_twin(l, q, i as int));
        assert(q[i as int]);
        assert(has_twin(l, q, j as int));
        assert(some_holds(p.groups@, i));
        assert(some_holds(p.groups@, j));
        let a = choose|k: int| 0 <= k < p.groups@.len() && holds(#[trigger] p.groups@[k], i);
        let b = choose|k: int| 0 <= k < p.groups@.len() && holds(#[trigger] p.groups@[k], j);
        let mb = p.groups@[b].members@;
        assert(group_ok(p.groups@[b], l, q, l.len() as int));
        let kb = choose|k: int| 0 <= k < mb.len() && mb[k] == j;
        assert(mb[kb] == j);
        assert(p.groups@[a].look == l[i as int]);
        assert(p.groups@[b].look == l[j as int]);
        if a < b {
            assert(p.groups@[a].look != p.groups@[b].look);
        } else if b < a {
            assert(p.groups@[b].look != p.groups@[a].look);
        }
        assert(p.groups@[a].members@.contains(i) && p.groups@[a].members@.contains(j));
    }
}

/// A model is plain where it stands at rest and nothing about it is its own.
pub proof fn lemma_plain_models(e: &Extras, r: bool, start: bool, pose: bool, turned: bool, driven: bool, at_rest: bool)
    requires
        call_ensures(is_plain, (e,), r),
        call_ensures(rests, (start, pose, turned, driven), at_rest),
    ensures
        e.on_track || e.head_clip || e.half || e.tinted || e.see_through || e.morphed || !e.at_rest ==> !r,
        e.at_rest && !e.on_track && !e.head_clip && !e.half && !e.tinted && !e.see_through && !e.morphed ==> r,
        !start ==> !at_rest,
        start && !pose ==> at_rest,
        start && pose ==> (at_rest <==> !turned && !driven),
{
}

/// The room for matrices is doubled from 1024 on until they fit, and is never made
/// smaller.
pub proof fn lemma_room(have: Option<usize>, n: usize, r: usize, again: bool)
    requires
        n <= 0x4000_0000,
        call_ensures(ensure_inst_buf, (have, n), (r, again)),
    ensures
        r >= n,
        r >= 1,
        !again ==> have == Some(r),
        again ==> r >= 1024 && (have matches Some(h) ==> h < r),
        again && r > 1024 ==> r < 2 * n,
        have matches Some(h) ==> h >= n && h > 0 ==> r == h,
{
    if again {
        let need: usize = if n == 0 {
            1
        } else {
            n
        };
        let k = choose|k: nat| r == #[trigger] room(k) && r >= need && (k > 0 ==> room((k - 1) as nat) < need);
        lemma_room_grows(k);
    }
}

proof fn lemma_room_grows(k: nat)
    ensures
        room(k) >= 1024,
        k > 0 ==> room(k) == 2 * room((k - 1) as nat),
        k == 0 ==> room(k) == 1024,
    decreases k,
{
    if k > 0 {
        lemma_room_grows((k - 1) as nat);
    }
}

/// A model is uploaded where it is on the screen, was read, and the frame has an upload
/// left; the one that it is scaled by after it. It is drawn once both are there. What
/// is not read yet is asked for, as long as there is an upload left.
pub proof fn lemma_uploads(l: Loads, on_screen: bool, there: bool, scale_there: bool, key: Seq<char>, scale: Seq<char>, budget: u32)
    ensures
        ({
            let (p, after) = prepare_of(l, on_screen, there, scale_there, key, scale, budget);
            let both = there && (scale_there || key == scale);
            let wanted = if there {
                scale
            } else {
                key
            };
            &&& p == Prepare::Draw <==> on_screen && both
            &&& !on_screen || both || budget == 0 ==> after == l
            &&& on_screen && !both && budget > 0 ==> after == request(l, wanted)
            &&& p is UploadModel <==> on_screen && !there && budget > 0 && ready(l, key) is Some
            &&& p is UploadModel ==> p == Prepare::UploadModel(ready(l, key)->0)
            &&& p is UploadScale <==> on_screen && there && !both && budget > 0 && ready(l, scale) is Some
            &&& p is UploadScale ==> p == Prepare::UploadScale(ready(l, scale)->0)
        }),
{
}

proof fn lemma_first_marked(marks: Seq<bool>, max: int, n: int)
    requires
        0 <= n <= marks.len() <= usize::MAX,
        0 <= max,
    ensures
        ({
            let r = first_marked(marks, max, n);
            &&& r.len() <= max
            &&& forall|i: int| 0 <= i < r.len() ==> (#[trigger] r[i]) < n && marks[r[i] as int]
            &&& forall|i: int, j: int| 0 <= i < j < r.len() ==> r[i] < r[j]
            &&& r.len() < max ==> forall|k: int| 0 <= k < n && #[trigger] marks[k] ==> r.contains(k as usize)
        }),
    decreases n,
{
    if n > 0 {
        lemma_first_marked(marks, max, n - 1);
        let b = first_marked(marks, max, n - 1);
        let r = first_marked(marks, max, n);
        if r.len() < max {
            assert forall|k: int| 0 <= k < n && #[trigger] marks[k] implies r.contains(k as usize) by {
                if k < n - 1 {
                    assert(b.contains(k as usize));
                    let i = choose|i: int| 0 <= i < b.len() && b[i] == k as usize;
                    assert(r[i] == k as usize);
                } else {
                    assert(r[b.len() as int] == k as usize);
                }
            }
        }
    }
}

/// Of what is marked the first are taken, in their order, as many as there is room for,
/// and all of them where there is room.
pub proof fn lemma_what_is_taken(marks: &Vec<bool>, max: usize, r: Vec<usize>, k: int)
    requires
        call_ensures(take_marked, (marks, max), r),
        0 <= k < marks@.len(),
    ensures
        r@.len() <= max,
        r@.contains(k as usize) ==> marks@[k],
        marks@[k] && r@.len() < max ==> r@.contains(k as usize),
        forall|i: int, j: int| 0 <= i < j < r@.len() ==> r@[i] < r@[j],
{
    assert(marks.len() == marks@.len());
    lemma_first_marked(marks@, max as int, marks@.len() as int);
    if r@.contains(k as usize) {
        let i = choose|i: int| 0 <= i < r@.len() && r@[i] == k as usize;
        assert(marks@[r@[i] as int]);
    }
}

proof fn lemma_single_parts(parts: Seq<PartInfo>, item: int, d: DrawItem, p: int, k: int, on_track: bool)
    requires
        0 <= k < p <= parts.len() <= usize::MAX,
    ensures
        single_part_calls(parts, item, d, p).contains(
            DrawCall::Single { item: item as usize, part: k as usize, on_track },
        ) <==> !(parts[k].arc && !d.active) && on_track == (d.on_track && parts[k].track),
    decreases p,
{
    let c = DrawCall::Single { item: item as usize, part: k as usize, on_track };
    let b = single_part_calls(parts, item, d, p - 1);
    let w = single_part_calls(parts, item, d, p);
    if k < p - 1 {
        lemma_single_parts(parts, item, d, p - 1, k, on_track);
    } else {
        lemma_parts_below(parts, item, d, p - 1);
        if b.contains(c) {
            let i = choose|i: int| 0 <= i < b.len() && b[i] == c;
            assert(b[i]->Single_part < p - 1);
        }
    }
    if b.contains(c) {
        let i = choose|i: int| 0 <= i < b.len() && b[i] == c;
        assert(w[i] == c);
    }
    if w.contains(c) && !b.contains(c) {
        let i = choose|i: int| 0 <= i < w.len() && w[i] == c;
        if i < b.len() {
            assert(b[i] == c);
        }
    }
    if k == p - 1 && !(parts[k].arc && !d.active) && on_track == (d.on_track && parts[k].track) {
        assert(w[b.len() as int] == c);
    }
}

proof fn lemma_parts_below(parts: Seq<PartInfo>, item: int, d: DrawItem, p: int)
    requires
        p <= parts.len() <= usize::MAX,
    ensures
        forall|i: int|
            0 <= i < single_part_calls(parts, item, d, p).len() ==> {
                let c = #[trigger] single_part_calls(parts, item, d, p)[i];
                c is Single && c->Single_part < p
            },
    decreases p,
{
    if p > 0 {
        lemma_parts_below(parts, item, d, p - 1);
        let b = single_part_calls(parts, item, d, p - 1);
        let w = single_part_calls(parts, item, d, p);
        assert forall|i: int| 0 <= i < w.len() implies {
            let c = #[trigger] w[i];
            c is Single && c->Single_part < p
        } by {
            if i < b.len() {
                assert(w[i] == b[i]);
            }
        }
    }
}

/// A single model is drawn part by part: every part but the arcs of an accumulator that
/// is not active, along the path where it has a chain that runs. In the shadow pass one
/// that is see-through is left out.
pub proof fn lemma_draws_of_a_model(items: Seq<DrawItem>, models: Seq<ModelInfo>, shadow: bool, i: int, k: int)
    requires
        0 <= i < items.len(),
        0 <= k < models[items[i].model as int].parts@.len() <= usize::MAX,
    ensures
        ({
            let d = items[i];
            let m = models[d.model as int];
            let r = item_calls(items, models, shadow, i);
            let run = d.on_track && m.parts@[k].track;
            let c = DrawCall::Single { item: i as usize, part: k as usize, on_track: run };
            &&& shadow && !d.opaque ==> r.len() == 0
            &&& !(shadow && !d.opaque) ==> (r.contains(c) <==> d.active || !m.parts@[k].arc)
            &&& !(shadow && !d.opaque) && d.on_track && m.has_path ==> r[0] == DrawCall::Path(i as usize)
        }),
{
    let d = items[i];
    let m = models[d.model as int];
    let r = item_calls(items, models, shadow, i);
    let run = d.on_track && m.parts@[k].track;
    let c = DrawCall::Single { item: i as usize, part: k as usize, on_track: run };
    let n = m.parts@.len() as int;
    let s = single_part_calls(m.parts@, i, d, n);
    lemma_single_parts(m.parts@, i, d, n, k, run);
    let head: int = if d.on_track && m.has_path {
        1
    } else {
        0
    };
    if !(shadow && !d.opaque) {
        if s.contains(c) {
            let j = choose|j: int| 0 <= j < s.len() && s[j] == c;
            assert(r[head + j] == c);
        }
        if r.contains(c) {
            let j = choose|j: int| 0 <= j < r.len() && r[j] == c;
            if j >= head {
                assert(s[j - head] == c);
            }
        }
    }
}

/// A group is drawn part by part, all members of a part at once, from where its matrices
/// of that part begin.
pub proof fn lemma_draws_of_a_group(parts: Seq<PartInfo>, group: int, base: int, count: int, active: bool, p: int, k: int)
    requires
        0 <= k < p <= parts.len(),
    ensures
        active || !parts[k].arc ==> group_part_calls(parts, group, base, count, active, p).contains(
            DrawCall::Instanced {
                group: group as usize,
                part: k as usize,
                slot: (base + k * count) as usize,
                count: count as usize,
            },
        ),
    decreases p,
{
    let c = DrawCall::Instanced {
        group: group as usize,
        part: k as usize,
        slot: (base + k * count) as usize,
        count: count as usize,
    };
    let b = group_part_calls(parts, group, base, count, active, p - 1);
    let w = group_part_calls(parts, group, base, count, active, p);
    if active || !parts[k].arc {
        if k < p - 1 {
            lemma_draws_of_a_group(parts, group, base, count, active, p - 1, k);
            let i = choose|i: int| 0 <= i < b.len() && b[i] == c;
            assert(w[i] == c);
        } else {
            assert(w[b.len() as int] == c);
        }
    }
}

/// Nothing is drawn without a view of half a tile, without anything to draw, or where all
/// of it is out of view; models are drawn otherwise, wires where some are in view, and
/// shadows where the sun is high enough and they are wanted.
pub proof fn lemma_passes_over_models(
    any_instance: bool,
    any_wire: bool,
    view: &ViewRect,
    prepared: usize,
    wires: usize,
    sun_high: bool,
    wanted: bool,
    r: Option<ModelPasses>,
    p: bool,
)
    requires
        call_ensures(draw, (any_instance, any_wire, view, prepared, wires, sun_high, wanted), r),
        call_ensures(prepares, (any_instance, any_wire, view), p),
    ensures
        p <==> (any_instance || any_wire) && view.span_x > 127 && view.span_y > 127,
        r is Some <==> p && (prepared > 0 || wires > 0),
        r matches Some(m) ==> m.models && (m.wires <==> wires > 0) && (m.shadows <==> sun_high && wanted),
{
}

} // verus!
