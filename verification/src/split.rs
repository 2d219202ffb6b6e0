//! Taking text apart.

use crate::text::{substring, to_chars, views};
use vstd::prelude::*;
use vstd::string::*;

verus! {

/// The character is white space.
pub open spec fn white(c: char) -> bool {
    let n = c as u32;
    ||| 0x09 <= n <= 0x0D
    ||| n == 0x20
    ||| n == 0x85
    ||| n == 0xA0
    ||| n == 0x1680
    ||| 0x2000 <= n <= 0x200A
    ||| n == 0x2028
    ||| n == 0x2029
    ||| n == 0x202F
    ||| n == 0x205F
    ||| n == 0x3000
}

/// Whether a character is white space.
pub fn is_white(c: char) -> (r: bool)
    ensures
        r == white(c),
{
    let n: u32 = c as u32;
    (0x09 <= n && n <= 0x0D) || n == 0x20 || n == 0x85 || n == 0xA0 || n == 0x1680 || (0x2000 <= n
        && n <= 0x200A) || n == 0x2028 || n == 0x2029 || n == 0x202F || n == 0x205F || n == 0x3000
}

/// The text without the white space that it starts with.
pub open spec fn trimmed_start(s: Seq<char>) -> Seq<char>
    decreases s.len(),
{
    if s.len() > 0 && white(s[0]) {
        trimmed_start(s.drop_first())
    } else {
        s
    }
}

/// The text without the white space that it ends with.
pub open spec fn trimmed_end(s: Seq<char>) -> Seq<char>
    decreases s.len(),
{
    if s.len() > 0 && white(s.last()) {
        trimmed_end(s.drop_last())
    } else {
        s
    }
}

/// The text without the white space around it.
pub open spec fn trimmed(s: Seq<char>) -> Seq<char> {
    trimmed_end(trimmed_start(s))
}

/// The text without the white space around it.
pub fn trim(s: &str) -> (r: String)
    ensures
        r@ == trimmed(s@),
{
    let v: Vec<char> = to_chars(s);
    let mut from: usize = 0;
    assert(s@.skip(0) =~= s@);
    while from < v.len() && is_white(v[from])
        invariant
            v@ == s@,
            from <= v.len(),
            trimmed_start(s@) == trimmed_start(s@.skip(from as int)),
        decreases v.len() - from,
    {
        assert(s@.skip(from as int).drop_first() =~= s@.skip(from + 1));
        from = from + 1;
    }
    let ghost t = s@.skip(from as int);
    assert(trimmed_start(s@) == t);
    let mut to: usize = v.len();
    assert(s@.subrange(from as int, to as int) =~= t);
    while to > from && is_white(v[to - 1])
        invariant
            v@ == s@,
            from <= to <= v.len(),
            trimmed_end(t) == trimmed_end(s@.subrange(from as int, to as int)),
        decreases to,
    {
        assert(s@.subrange(from as int, to as int).drop_last() =~= s@.subrange(
            from as int,
            to - 1,
        ));
        to = to - 1;
    }
    substring(s, from, to)
}

/// What is trimmed neither starts nor ends with white space, and trimming it
/// again changes nothing.
pub proof fn lemma_trimmed(s: Seq<char>)
    ensures
        ({
            let t = trimmed(s);
            &&& t.len() > 0 ==> !white(t[0]) && !white(t.last())
            &&& trimmed(t) == t
            &&& t.len() <= s.len()
        }),
{
    lemma_start(s);
    lemma_end(trimmed_start(s));
}

proof fn lemma_start(s: Seq<char>)
    ensures
        trimmed_start(s).len() <= s.len(),
        trimmed_start(s).len() > 0 ==> !white(trimmed_start(s)[0]),
    decreases s.len(),
{
    if s.len() > 0 && white(s[0]) {
        lemma_start(s.drop_first());
    }
}

proof fn lemma_end(s: Seq<char>)
    ensures
        trimmed_end(s).len() <= s.len(),
        trimmed_end(s).len() > 0 ==> !white(trimmed_end(s).last()) && trimmed_end(s)[0] == s[0],
    decreases s.len(),
{
    if s.len() > 0 && white(s.last()) {
        lemma_end(s.drop_last());
    }
}

/// The parts of a text between separators.
pub open spec fn split_on(s: Seq<char>, c: char) -> Seq<Seq<char>>
    decreases s.len(),
{
    if s.len() == 0 {
        seq![Seq::empty()]
    } else {
        let before = split_on(s.drop_last(), c);
        if s.last() == c {
            before.push(Seq::empty())
        } else {
            before.drop_last().push(before.last().push(s.last()))
        }
    }
}

/// The parts of a text between separators.
pub fn split(s: &str, c: char) -> (r: Vec<String>)
    ensures
        views(r@) == split_on(s@, c),
{
    let v: Vec<char> = to_chars(s);
    let mut parts: Vec<String> = Vec::new();
    let mut start: usize = 0;
    let mut i: usize = 0;
    proof {
        assert(s@.subrange(0, 0) =~= Seq::<char>::empty());
        assert(s@.take(0).len() == 0);
        assert(views(parts@).push(Seq::empty()) =~= split_on(s@.take(0), c));
    }
    while i < v.len()
        invariant
            v@ == s@,
            start <= i <= v.len(),
            views(parts@).push(s@.subrange(start as int, i as int)) == split_on(
                s@.take(i as int),
                c,
            ),
        decreases v.len() - i,
    {
        let ghost before = parts@;
        let ghost all = split_on(s@.take(i as int), c);
        proof {
            assert(s@.take(i + 1).drop_last() =~= s@.take(i as int));
            assert(s@.take(i + 1).last() == s@[i as int]);
            assert(all == views(before).push(s@.subrange(start as int, i as int)));
            assert(all.drop_last() =~= views(before));
            assert(all.last() =~= s@.subrange(start as int, i as int));
        }
        if v[i] == c {
            parts.push(substring(s, start, i));
            start = i + 1;
            assert(views(parts@) =~= all);
            assert(s@.subrange(start as int, i + 1) =~= Seq::<char>::empty());
        } else {
            assert(s@.subrange(start as int, i + 1) =~= s@.subrange(start as int, i as int).push(
                s@[i as int],
            ));
        }
        i = i + 1;
    }
    parts.push(substring(s, start, i));
    assert(s@.take(i as int) =~= s@);
    assert(views(parts@) =~= split_on(s@, c));
    parts
}

/// The parts hold no separator.
pub proof fn lemma_parts(s: Seq<char>, c: char)
    ensures
        split_on(s, c).len() > 0,
        forall|i: int| 0 <= i < split_on(s, c).len() ==> !(#[trigger] split_on(s, c)[i]).contains(c),
    decreases s.len(),
{
    let r = split_on(s, c);
    if s.len() > 0 {
        lemma_parts(s.drop_last(), c);
        let b = split_on(s.drop_last(), c);
        assert forall|i: int| 0 <= i < r.len() implies !(#[trigger] r[i]).contains(c) by {
            if s.last() == c {
                if i < b.len() {
                    assert(r[i] == b[i]);
                }
            } else if i < b.len() - 1 {
                assert(r[i] == b[i]);
            } else {
                let p = b[b.len() - 1];
                assert(r[i] == p.push(s.last()));
                if r[i].contains(c) {
                    let k = r[i].index_of(c);
                    assert(p[k] == c);
                    assert(p.contains(c));
                }
            }
        }
    }
}

/// Where a character first stands in a text.
pub open spec fn first_index(s: Seq<char>, c: char) -> Option<int>
    decreases s.len(),
{
    if s.len() == 0 {
        None
    } else if first_index(s.drop_last(), c) is Some {
        first_index(s.drop_last(), c)
    } else if s.last() == c {
        Some(s.len() - 1)
    } else {
        None
    }
}

proof fn lemma_first_prefix(s: Seq<char>, n: int, c: char)
    requires
        0 <= n <= s.len(),
        first_index(s.take(n), c) is Some,
    ensures
        first_index(s, c) == first_index(s.take(n), c),
    decreases s.len(),
{
    if n == s.len() {
        assert(s.take(n) =~= s);
    } else {
        assert(s.drop_last().take(n) =~= s.take(n));
        lemma_first_prefix(s.drop_last(), n, c);
    }
}

/// The text before the first separator and that behind it; nothing where there
/// is none.
pub fn split_once(s: &str, c: char) -> (r: Option<(String, String)>)
    ensures
        r is Some <==> first_index(s@, c) is Some,
        r matches Some(p) ==> p.0@ == s@.take(first_index(s@, c)->0) && p.1@ == s@.skip(
            first_index(s@, c)->0 + 1,
        ),
{
    let v: Vec<char> = to_chars(s);
    let mut i: usize = 0;
    while i < v.len()
        invariant
            v@ == s@,
            i <= v.len(),
            first_index(s@.take(i as int), c) is None,
        decreases v.len() - i,
    {
        assert(s@.take(i + 1).drop_last() =~= s@.take(i as int));
        if v[i] == c {
            proof {
                lemma_first_prefix(s@, i + 1, c);
                assert(s@.subrange(0, i as int) =~= s@.take(i as int));
                assert(s@.subrange(i + 1, s@.len() as int) =~= s@.skip(i + 1));
            }
            return Some((substring(s, 0, i), substring(s, i + 1, v.len())));
        }
        i = i + 1;
    }
    assert(s@.take(i as int) =~= s@);
    None
}

/// A text without the separator is one part, and a separator between two texts ends the
/// parts of the first and begins those of the second.
pub proof fn lemma_split_joins(a: Seq<char>, c: char, b: Seq<char>)
    ensures
        !a.contains(c) ==> split_on(a, c) == seq![a],
        split_on(a + seq![c] + b, c) == split_on(a, c) + split_on(b, c),
    decreases a.len() + b.len(),
{
    lemma_split_whole(a, c);
    let s = a + seq![c] + b;
    if b.len() == 0 {
        assert(s.drop_last() =~= a);
        assert(s.last() == c);
        assert(split_on(s, c) =~= split_on(a, c) + split_on(b, c));
    } else {
        lemma_split_joins(a, c, b.drop_last());
        assert(s.drop_last() =~= a + seq![c] + b.drop_last());
        assert(s.last() == b.last());
        let x = split_on(a, c);
        let y = split_on(b.drop_last(), c);
        lemma_parts(b.drop_last(), c);
        if b.last() == c {
            assert((x + y).push(Seq::empty()) =~= x + y.push(Seq::empty()));
        } else {
            assert((x + y).last() == y.last());
            assert((x + y).drop_last().push(y.last().push(b.last())) =~= x + y.drop_last().push(y.last().push(b.last())));
        }
    }
}

proof fn lemma_split_whole(a: Seq<char>, c: char)
    ensures
        !a.contains(c) ==> split_on(a, c) == seq![a],
    decreases a.len(),
{
    if !a.contains(c) {
        if a.len() == 0 {
            assert(a =~= Seq::<char>::empty());
            assert(split_on(a, c) =~= seq![a]);
        } else {
            let d = a.drop_last();
            assert(!d.contains(c)) by {
                if d.contains(c) {
                    let k = choose|k: int| 0 <= k < d.len() && d[k] == c;
                    assert(a[k] == c);
                }
            }
            lemma_split_whole(d, c);
            assert(a[a.len() - 1] == a.last());
            assert(seq![d].last().push(a.last()) =~= a);
            assert(split_on(a, c) =~= seq![a]);
        }
    }
}

proof fn lemma_start_white(s: Seq<char>)
    ensures
        exists|k: int|
            0 <= k <= s.len() && trimmed_start(s) == #[trigger] s.skip(k) && forall|i: int|
                0 <= i < k ==> white(#[trigger] s[i]),
    decreases s.len(),
{
    if s.len() > 0 && white(s[0]) {
        let d = s.drop_first();
        lemma_start_white(d);
        let k = choose|k: int|
            0 <= k <= d.len() && trimmed_start(d) == #[trigger] d.skip(k) && forall|i: int|
                0 <= i < k ==> white(#[trigger] d[i]);
        assert(d.skip(k) =~= s.skip(k + 1));
        assert forall|i: int| 0 <= i < k + 1 implies white(#[trigger] s[i]) by {
            if i > 0 {
                assert(d[i - 1] == s[i]);
            }
        }
    } else {
        assert(s.skip(0) =~= s);
    }
}

proof fn lemma_end_white(s: Seq<char>)
    ensures
        exists|k: int|
            0 <= k <= s.len() && trimmed_end(s) == #[trigger] s.take(k) && forall|i: int|
                k <= i < s.len() ==> white(#[trigger] s[i]),
    decreases s.len(),
{
    if s.len() > 0 && white(s.last()) {
        let d = s.drop_last();
        lemma_end_white(d);
        let k = choose|k: int|
            0 <= k <= d.len() && trimmed_end(d) == #[trigger] d.take(k) && forall|i: int|
                k <= i < d.len() ==> white(#[trigger] d[i]);
        assert(d.take(k) =~= s.take(k));
        assert forall|i: int| k <= i < s.len() implies white(#[trigger] s[i]) by {
            if i < d.len() {
                assert(d[i] == s[i]);
            }
        }
    } else {
        assert(s.take(s.len() as int) =~= s);
    }
}

/// What is trimmed off a text is white space, and what is left stands in it as it was.
pub proof fn lemma_only_white_is_trimmed(s: Seq<char>)
    ensures
        exists|a: int, b: int|
            {
                &&& 0 <= a <= b <= s.len()
                &&& trimmed(s) == #[trigger] s.subrange(a, b)
                &&& forall|i: int| 0 <= i < a ==> white(#[trigger] s[i])
                &&& forall|i: int| b <= i < s.len() ==> white(#[trigger] s[i])
            },
{
    lemma_start_white(s);
    let a = choose|k: int|
        0 <= k <= s.len() && trimmed_start(s) == #[trigger] s.skip(k) && forall|i: int|
            0 <= i < k ==> white(#[trigger] s[i]);
    let t = s.skip(a);
    lemma_end_white(t);
    let k = choose|k: int|
        0 <= k <= t.len() && trimmed_end(t) == #[trigger] t.take(k) && forall|i: int|
            k <= i < t.len() ==> white(#[trigger] t[i]);
    assert(t.take(k) =~= s.subrange(a, a + k));
    assert forall|i: int| a + k <= i < s.len() implies white(#[trigger] s[i]) by {
        assert(t[i - a] == s[i]);
    }
    assert(trimmed(s) == s.subrange(a, a + k));
}

proof fn lemma_first_index(s: Seq<char>, c: char)
    ensures
        first_index(s, c) matches Some(k) ==> 0 <= k < s.len() && s[k] == c && forall|i: int|
            0 <= i < k ==> #[trigger] s[i] != c,
        first_index(s, c) is None ==> forall|i: int| 0 <= i < s.len() ==> #[trigger] s[i] != c,
    decreases s.len(),
{
    if s.len() > 0 {
        let d = s.drop_last();
        lemma_first_index(d, c);
        assert forall|i: int| 0 <= i < d.len() implies #[trigger] s[i] == d[i] by {}
    }
}

/// A text is split once at the first separator, which is in neither half nor before it.
pub proof fn lemma_split_at_the_first(s: &str, c: char, r: Option<(String, String)>)
    requires
        call_ensures(split_once, (s, c), r),
    ensures
        r is Some <==> s@.contains(c),
        r matches Some(p) ==> s@ == p.0@ + seq![c] + p.1@ && !p.0@.contains(c),
{
    lemma_first_index(s@, c);
    match first_index(s@, c) {
        Some(k) => {
            assert(s@[k] == c);
            assert(s@ =~= s@.take(k) + seq![c] + s@.skip(k + 1));
        },
        None => {},
    }
}

/// The first separator is the one with none before it.
pub proof fn lemma_first_at(a: Seq<char>, c: char, b: Seq<char>)
    requires
        !a.contains(c),
    ensures
        first_index(a + seq![c] + b, c) == Some(a.len() as int),
{
    let s = a + seq![c] + b;
    lemma_first_index(s, c);
    assert(s[a.len() as int] == c);
    let k = first_index(s, c)->0;
    if k < a.len() {
        assert(a[k] == c);
    }
}

/// There is no first separator where there is none.
pub proof fn lemma_not_there(s: Seq<char>, c: char)
    requires
        !s.contains(c),
    ensures
        first_index(s, c) is None,
{
    lemma_first_index(s, c);
    if first_index(s, c) is Some {
        assert(s[first_index(s, c)->0] == c);
    }
}

} // verus!
