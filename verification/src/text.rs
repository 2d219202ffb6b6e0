//! Text search on `&str`, stated over sequences of characters.

use vstd::prelude::*;

verus! {

/// `s` begins with `p`.
pub open spec fn has_prefix(s: Seq<char>, p: Seq<char>) -> bool {
    p.len() <= s.len() && s.subrange(0, p.len() as int) == p
}

/// `s` ends with `p`.
pub open spec fn has_suffix(s: Seq<char>, p: Seq<char>) -> bool {
    p.len() <= s.len() && s.subrange(s.len() - p.len(), s.len() as int) == p
}

/// `p` stands in `s` at index `i`.
pub open spec fn occurs_at(s: Seq<char>, p: Seq<char>, i: int) -> bool {
    0 <= i && i + p.len() <= s.len() && s.subrange(i, i + p.len()) == p
}

/// `p` stands somewhere in `s`.
pub open spec fn has_text(s: Seq<char>, p: Seq<char>) -> bool {
    exists|i: int| occurs_at(s, p, i)
}

/// The characters of a string.
pub fn to_chars(s: &str) -> (v: Vec<char>)
    ensures
        v@ == s@,
{
    let mut v: Vec<char> = Vec::new();
    for c in it: s.chars()
        invariant
            it.seq() == s@,
            v@ == s@.take(it.index() as int),
    {
        v.push(c);
        assert(s@.take(it.index() as int).push(c) =~= s@.take(it.index() + 1));
    }
    assert(s@.take(s@.len() as int) =~= s@);
    v
}

/// Whether `p` stands in `s` at index `i`.
pub fn chars_at(s: &Vec<char>, i: usize, p: &Vec<char>) -> (r: bool)
    requires
        i <= s.len(),
    ensures
        r == occurs_at(s@, p@, i as int),
{
    if p.len() > s.len() - i {
        return false;
    }
    let mut k: usize = 0;
    while k < p.len()
        invariant
            k <= p.len(),
            i + p.len() <= s.len(),
            forall|j: int| 0 <= j < k ==> s@[i + j] == p@[j],
        decreases p.len() - k,
    {
        if s[i + k] != p[k] {
            assert(s@.subrange(i as int, i + p.len())[k as int] == s@[i + k]);
            return false;
        }
        k = k + 1;
    }
    assert(s@.subrange(i as int, i + p.len()) =~= p@);
    true
}

/// Whether two strings hold the same characters.
pub fn str_eq(a: &str, b: &str) -> (r: bool)
    ensures
        r == (a@ == b@),
{
    let x: Vec<char> = to_chars(a);
    let y: Vec<char> = to_chars(b);
    if x.len() != y.len() {
        return false;
    }
    let r: bool = chars_at(&x, 0, &y);
    assert(x@.subrange(0, x@.len() as int) =~= x@);
    r
}

pub fn starts_with(s: &str, p: &str) -> (r: bool)
    ensures
        r == has_prefix(s@, p@),
{
    let x: Vec<char> = to_chars(s);
    let y: Vec<char> = to_chars(p);
    chars_at(&x, 0, &y)
}

pub fn ends_with(s: &str, p: &str) -> (r: bool)
    ensures
        r == has_suffix(s@, p@),
{
    let x: Vec<char> = to_chars(s);
    let y: Vec<char> = to_chars(p);
    if y.len() > x.len() {
        return false;
    }
    chars_at(&x, x.len() - y.len(), &y)
}

/// The first index at which `p` stands in `s`.
pub fn find_chars(s: &Vec<char>, p: &Vec<char>) -> (r: Option<usize>)
    ensures
        r is Some <==> has_text(s@, p@),
        r matches Some(i) ==> occurs_at(s@, p@, i as int)
            && (forall|j: int| 0 <= j < i ==> !occurs_at(s@, p@, j)),
{
    if p.len() > s.len() {
        return None;
    }
    let last: usize = s.len() - p.len();
    let mut i: usize = 0;
    while i < last
        invariant
            i <= last,
            last == s.len() - p.len(),
            forall|j: int| 0 <= j < i ==> !occurs_at(s@, p@, j),
        decreases last - i,
    {
        if chars_at(s, i, p) {
            return Some(i);
        }
        i = i + 1;
    }
    if chars_at(s, last, p) {
        Some(last)
    } else {
        None
    }
}

pub fn contains(s: &str, p: &str) -> (r: bool)
    ensures
        r == has_text(s@, p@),
{
    let x: Vec<char> = to_chars(s);
    let y: Vec<char> = to_chars(p);
    find_chars(&x, &y).is_some()
}

/// The views of a list of strings.
pub open spec fn views(v: Seq<String>) -> Seq<Seq<char>> {
    v.map_values(|s: String| s@)
}

/// Lexicographic order by character code, the order of `String`.
pub open spec fn lex_le(a: Seq<char>, b: Seq<char>) -> bool
    decreases a.len(),
{
    if a.len() == 0 {
        true
    } else if b.len() == 0 {
        false
    } else if a[0] == b[0] {
        lex_le(a.drop_first(), b.drop_first())
    } else {
        a[0] < b[0]
    }
}

pub proof fn lemma_lex_total(a: Seq<char>, b: Seq<char>)
    ensures
        lex_le(a, b) || lex_le(b, a),
        lex_le(a, b) && lex_le(b, a) ==> a == b,
    decreases a.len(),
{
    if a.len() > 0 && b.len() > 0 && a[0] == b[0] {
        lemma_lex_total(a.drop_first(), b.drop_first());
        assert(a =~= seq![a[0]] + a.drop_first());
        assert(b =~= seq![b[0]] + b.drop_first());
    } else if a.len() == 0 && b.len() == 0 {
        assert(a =~= b);
    }
}

pub proof fn lemma_lex_transitive(a: Seq<char>, b: Seq<char>, c: Seq<char>)
    requires
        lex_le(a, b),
        lex_le(b, c),
    ensures
        lex_le(a, c),
    decreases a.len(),
{
    if a.len() > 0 && a[0] == b[0] && b[0] == c[0] {
        lemma_lex_transitive(a.drop_first(), b.drop_first(), c.drop_first());
    }
}

fn lex_le_chars(a: &Vec<char>, b: &Vec<char>) -> (r: bool)
    ensures
        r == lex_le(a@, b@),
{
    assert(a@.skip(0) =~= a@);
    assert(b@.skip(0) =~= b@);
    let mut i: usize = 0;
    while i < a.len() && i < b.len() && a[i] == b[i]
        invariant
            i <= a.len(),
            i <= b.len(),
            lex_le(a@, b@) == lex_le(a@.skip(i as int), b@.skip(i as int)),
        decreases a.len() - i,
    {
        assert(a@.skip(i as int).drop_first() =~= a@.skip(i + 1));
        assert(b@.skip(i as int).drop_first() =~= b@.skip(i + 1));
        i = i + 1;
    }
    if i == a.len() {
        true
    } else if i == b.len() {
        false
    } else {
        a[i] < b[i]
    }
}

/// Whether `a` sorts no later than `b`.
pub fn str_le(a: &str, b: &str) -> (r: bool)
    ensures
        r == lex_le(a@, b@),
{
    let x: Vec<char> = to_chars(a);
    let y: Vec<char> = to_chars(b);
    lex_le_chars(&x, &y)
}

/// `x` put into the sorted list `s`, behind everything that is not larger.
pub open spec fn insert_name(s: Seq<Seq<char>>, x: Seq<char>) -> Seq<Seq<char>>
    decreases s.len(),
{
    if s.len() == 0 || lex_le(s.last(), x) {
        s.push(x)
    } else {
        insert_name(s.drop_last(), x).push(s.last())
    }
}

/// The list `s` in lexicographic order.
pub open spec fn sort_names(s: Seq<Seq<char>>) -> Seq<Seq<char>>
    decreases s.len(),
{
    if s.len() == 0 {
        s
    } else {
        insert_name(sort_names(s.drop_last()), s.last())
    }
}

pub open spec fn names_sorted(s: Seq<Seq<char>>) -> bool {
    forall|i: int, j: int| 0 <= i <= j < s.len() ==> lex_le(#[trigger] s[i], #[trigger] s[j])
}

proof fn lemma_insert_name(s: Seq<Seq<char>>, x: Seq<char>)
    requires
        names_sorted(s),
    ensures
        names_sorted(insert_name(s, x)),
        insert_name(s, x).to_multiset() == s.to_multiset().insert(x),
        insert_name(s, x).len() == s.len() + 1,
        forall|i: int| 0 <= i <= s.len() ==> (#[trigger] insert_name(s, x)[i] == x || s.contains(insert_name(s, x)[i])),
    decreases s.len(),
{
    broadcast use vstd::seq_lib::group_to_multiset_ensures;

    lemma_lex_total(x, x);
    if s.len() == 0 || lex_le(s.last(), x) {
        let t = s.push(x);
        assert forall|i: int, j: int| 0 <= i <= j < t.len() implies lex_le(#[trigger] t[i], #[trigger] t[j]) by {
            if j == s.len() && i < s.len() {
                lemma_lex_transitive(s[i], s.last(), x);
            }
        }
    } else {
        let d = s.drop_last();
        lemma_insert_name(d, x);
        let u = insert_name(d, x);
        let t = u.push(s.last());
        lemma_lex_total(s.last(), x);
        lemma_lex_total(s.last(), s.last());
        assert forall|i: int, j: int| 0 <= i <= j < t.len() implies lex_le(#[trigger] t[i], #[trigger] t[j]) by {
            if j == u.len() && i < u.len() {
                assert(u[i] == x || d.contains(u[i]));
                if u[i] != x {
                    let k = choose|k: int| 0 <= k < d.len() && d[k] == u[i];
                    assert(s[k] == u[i]);
                }
            }
        }
        assert(s =~= d.push(s.last()));
        assert forall|i: int| 0 <= i <= s.len() implies (#[trigger] t[i] == x || s.contains(t[i])) by {
            if i < u.len() {
                if u[i] != x {
                    let k = choose|k: int| 0 <= k < d.len() && d[k] == u[i];
                    assert(s[k] == u[i]);
                }
            } else {
                assert(s[s.len() - 1] == t[i]);
            }
        }
        assert(t.to_multiset() =~= s.to_multiset().insert(x));
    }
}

/// Sorting orders the names and loses or adds none.
pub proof fn lemma_sort_names(s: Seq<Seq<char>>)
    ensures
        names_sorted(sort_names(s)),
        sort_names(s).to_multiset() == s.to_multiset(),
        sort_names(s).len() == s.len(),
    decreases s.len(),
{
    broadcast use vstd::seq_lib::group_to_multiset_ensures;

    if s.len() > 0 {
        lemma_sort_names(s.drop_last());
        lemma_insert_name(sort_names(s.drop_last()), s.last());
        assert(s =~= s.drop_last().push(s.last()));
    }
}

/// Sorts a list of names.
pub fn sorted_names(v: &Vec<String>) -> (r: Vec<String>)
    ensures
        views(r@) == sort_names(views(v@)),
{
    let mut r: Vec<String> = Vec::new();
    let mut i: usize = 0;
    while i < v.len()
        invariant
            i <= v.len(),
            views(r@) == sort_names(views(v@.take(i as int))),
        decreases v.len() - i,
    {
        let ghost before = r@;
        let mut k: usize = r.len();
        assert(r@.take(k as int) =~= r@);
        assert(r@.skip(k as int) =~= Seq::<String>::empty());
        assert(views(Seq::<String>::empty()) =~= Seq::<Seq<char>>::empty());
        assert(insert_name(views(r@), v@[i as int]@) =~= insert_name(views(r@.take(k as int)), v@[i as int]@) + views(r@.skip(k as int)));
        while k > 0 && !str_le(r[k - 1].as_str(), v[i].as_str())
            invariant
                k <= r.len(),
                i < v.len(),
                r@ == before,
                insert_name(views(before), v@[i as int]@) == insert_name(views(before.take(k as int)), v@[i as int]@) + views(before.skip(k as int)),
            decreases k,
        {
            let ghost t = views(before.take(k as int));
            assert(t.last() == before[k - 1]@);
            assert(t.drop_last() =~= views(before.take(k - 1)));
            assert(views(before.skip(k - 1)) =~= seq![before[k - 1]@] + views(before.skip(k as int)));
            assert(insert_name(t.drop_last(), v@[i as int]@).push(t.last()) + views(before.skip(k as int)) =~= insert_name(
                t.drop_last(),
                v@[i as int]@,
            ) + (seq![t.last()] + views(before.skip(k as int))));
            k = k - 1;
        }
        r.insert(k, v[i].clone());
        proof {
            let t = views(before.take(k as int));
            if k > 0 {
                assert(t.last() == before[k - 1]@);
            }
            assert(insert_name(t, v@[i as int]@) == t.push(v@[i as int]@));
            assert(views(r@) =~= t.push(v@[i as int]@) + views(before.skip(k as int)));
            let w = views(v@.take(i + 1));
            assert(w.drop_last() =~= views(v@.take(i as int)));
            assert(w.last() == v@[i as int]@);
        }
        i = i + 1;
    }
    assert(v@.take(v@.len() as int) =~= v@);
    r
}

/// The text between two positions, counted in characters.
pub fn substring(s: &str, from: usize, to: usize) -> (r: String)
    requires
        from <= to <= s@.len(),
    ensures
        r@ == s@.subrange(from as int, to as int),
{
    s.substring_char(from, to).to_owned()
}

/// What is left of `s` behind the prefix `p`.
pub fn strip_prefix(s: &str, p: &str) -> (r: Option<String>)
    ensures
        r is Some <==> has_prefix(s@, p@),
        r matches Some(t) ==> s@ == p@ + t@,
{
    if starts_with(s, p) {
        let n: usize = s.unicode_len();
        let m: usize = p.unicode_len();
        let t: String = substring(s, m, n);
        assert(s@ =~= s@.subrange(0, m as int) + s@.subrange(m as int, n as int));
        Some(t)
    } else {
        None
    }
}

/// The concatenation of two strings.
pub fn join2(a: &str, b: &str) -> (r: String)
    ensures
        r@ == a@ + b@,
{
    let mut r: String = a.to_owned();
    r.append(b);
    r
}

/// The index at which a list of strings first holds `s`.
pub fn position(v: &Vec<String>, s: &str) -> (r: Option<usize>)
    ensures
        r is Some <==> views(v@).contains(s@),
        r matches Some(i) ==> i < v.len() && v@[i as int]@ == s@ && (forall|j: int|
            0 <= j < i ==> (#[trigger] v@[j])@ != s@),
{
    let mut i: usize = 0;
    while i < v.len()
        invariant
            i <= v.len(),
            forall|j: int| 0 <= j < i ==> (#[trigger] v@[j])@ != s@,
        decreases v.len() - i,
    {
        if str_eq(v[i].as_str(), s) {
            assert(views(v@)[i as int] == s@);
            return Some(i);
        }
        i = i + 1;
    }
    assert(!views(v@).contains(s@)) by {
        if views(v@).contains(s@) {
            let k = choose|k: int| 0 <= k < views(v@).len() && views(v@)[k] == s@;
            assert(v@[k]@ == s@);
        }
    }
    None
}

/// `s` with every occurrence of `from` replaced by `to`, from left to right.
pub open spec fn replace_of(s: Seq<char>, from: Seq<char>, to: Seq<char>) -> Seq<char>
    decreases s.len(),
{
    if s.len() == 0 || from.len() == 0 {
        s
    } else if has_prefix(s, from) {
        to + replace_of(s.skip(from.len() as int), from, to)
    } else {
        seq![s[0]] + replace_of(s.drop_first(), from, to)
    }
}

/// Replaces every occurrence of `from`.
pub fn replace(s: &str, from: &str, to: &str) -> (r: String)
    requires
        from@.len() > 0,
    ensures
        r@ == replace_of(s@, from@, to@),
{
    let c: Vec<char> = to_chars(s);
    let f: Vec<char> = to_chars(from);
    let mut r: String = String::new();
    let mut i: usize = 0;
    assert(s@.skip(0) =~= s@);
    assert(r@ + replace_of(s@, from@, to@) =~= replace_of(s@, from@, to@));
    while i < c.len()
        invariant
            i <= c.len(),
            c@ == s@,
            f@ == from@,
            f@.len() > 0,
            r@ + replace_of(s@.skip(i as int), from@, to@) == replace_of(s@, from@, to@),
        decreases c.len() - i,
    {
        let ghost rest = s@.skip(i as int);
        let ghost before = r@;
        if chars_at(&c, i, &f) {
            assert(rest.subrange(0, from@.len() as int) =~= s@.subrange(i as int, i + from@.len()));
            assert(rest.skip(from@.len() as int) =~= s@.skip(i + from@.len()));
            r.append(to);
            assert(before + (to@ + replace_of(s@.skip(i + from@.len()), from@, to@)) =~= r@
                + replace_of(s@.skip(i + from@.len()), from@, to@));
            i = i + f.len();
        } else {
            proof {
                if has_prefix(rest, from@) {
                    assert(rest.subrange(0, from@.len() as int) =~= s@.subrange(
                        i as int,
                        i + from@.len(),
                    ));
                }
                assert(rest.drop_first() =~= s@.skip(i + 1));
                assert(s@.subrange(i as int, i + 1) =~= seq![rest[0]]);
            }
            r.append(s.substring_char(i, i + 1));
            assert(before + (seq![rest[0]] + replace_of(s@.skip(i + 1), from@, to@)) =~= r@
                + replace_of(s@.skip(i + 1), from@, to@));
            i = i + 1;
        }
    }
    assert(r@ + replace_of(s@.skip(i as int), from@, to@) =~= r@);
    r
}

/// All characters are ASCII.
pub open spec fn all_ascii(s: Seq<char>) -> bool {
    forall|i: int| 0 <= i < s.len() ==> (#[trigger] s[i]) as u32 <= 0x7F
}

/// The lower case of an ASCII character.
pub open spec fn ascii_lower(c: char) -> char {
    if 'A' <= c <= 'Z' {
        ((c as u8 + 32) as u8) as char
    } else {
        c
    }
}

/// The upper case of an ASCII character.
pub open spec fn ascii_upper(c: char) -> char {
    if 'a' <= c <= 'z' {
        ((c as u8 - 32) as u8) as char
    } else {
        c
    }
}

/// The lower case of a text.
pub uninterp spec fn lowercase(s: Seq<char>) -> Seq<char>;

/// The upper case of a text.
pub uninterp spec fn uppercase(s: Seq<char>) -> Seq<char>;

/// `str::to_lowercase`: the result is a function of the text alone, and ASCII
/// letters become their lower case one by one.
#[verifier::external_body]
pub(crate) fn to_lowercase(s: &str) -> (r: String)
    ensures
        r@ == lowercase(s@),
        all_ascii(s@) ==> r@ == s@.map_values(|c: char| ascii_lower(c)),
{
    s.to_lowercase()
}

/// `str::to_uppercase`: the result is a function of the text alone, and ASCII
/// letters become their upper case one by one.
#[verifier::external_body]
pub(crate) fn to_uppercase(s: &str) -> (r: String)
    ensures
        r@ == uppercase(s@),
        all_ascii(s@) ==> r@ == s@.map_values(|c: char| ascii_upper(c)),
{
    s.to_uppercase()
}

/// A text starts with another exactly where that is a prefix of it.
pub proof fn lemma_prefix(s: Seq<char>, p: Seq<char>)
    ensures
        has_prefix(s, p) <==> p.is_prefix_of(s),
        has_prefix(p + s, p),
        has_prefix(s, p) ==> s == p + s.skip(p.len() as int),
{
    assert((p + s).subrange(0, p.len() as int) =~= p);
    if has_prefix(s, p) {
        assert(s =~= p + s.skip(p.len() as int));
    }
}

/// A text ends with another exactly where that is what is left behind some of it.
pub proof fn lemma_suffix(s: Seq<char>, p: Seq<char>)
    ensures
        has_suffix(s + p, p),
        has_suffix(s, p) ==> s == s.take(s.len() - p.len()) + p,
{
    assert((s + p).subrange(s.len() as int, (s + p).len() as int) =~= p);
    if has_suffix(s, p) {
        assert(s =~= s.take(s.len() - p.len()) + p);
    }
}

/// A text holds another wherever it stands between two others, and only there.
pub proof fn lemma_held_text(a: Seq<char>, p: Seq<char>, b: Seq<char>, s: Seq<char>)
    ensures
        has_text(a + p + b, p),
        has_text(s, p) ==> exists|i: int|
            0 <= i <= s.len() - p.len() && s == #[trigger] s.take(i) + p + s.skip(i + p.len()),
{
    assert((a + p + b).subrange(a.len() as int, (a.len() + p.len()) as int) =~= p);
    assert(occurs_at(a + p + b, p, a.len() as int));
    if has_text(s, p) {
        let i = choose|i: int| occurs_at(s, p, i);
        assert(s =~= s.take(i) + p + s.skip(i + p.len()));
    }
}

/// What is kept of a row is what was in it and passes.
pub proof fn lemma_filtered<A>(s: Seq<A>, f: spec_fn(A) -> bool, x: A)
    ensures
        s.filter(f).contains(x) <==> s.contains(x) && f(x),
    decreases s.len(),
{
    reveal(Seq::filter);
    if s.len() > 0 {
        let d = s.drop_last();
        lemma_filtered(d, f, x);
        let b = d.filter(f);
        let w = s.filter(f);
        if d.contains(x) {
            let k = choose|k: int| 0 <= k < d.len() && d[k] == x;
            assert(s[k] == x);
        }
        if b.contains(x) {
            let k = choose|k: int| 0 <= k < b.len() && b[k] == x;
            assert(w[k] == x);
        }
        if f(s.last()) {
            assert(w == b.push(s.last()));
            assert(w[b.len() as int] == s.last());
        } else {
            assert(w == b);
        }
        if s.contains(x) && !d.contains(x) {
            let k = choose|k: int| 0 <= k < s.len() && s[k] == x;
            if k < d.len() {
                assert(d[k] == x);
            }
        }
        if w.contains(x) && !b.contains(x) {
            let k = choose|k: int| 0 <= k < w.len() && w[k] == x;
            if k < b.len() {
                assert(b[k] == x);
            }
            assert(s[s.len() - 1] == x);
        }
    }
}

/// What replaces a text stands wherever the text does, and all else stays: a text before
/// the first occurrence is kept, and what is behind one is replaced in turn.
pub proof fn lemma_replaced(a: Seq<char>, from: Seq<char>, to: Seq<char>, b: Seq<char>)
    requires
        from.len() > 0,
        forall|i: int| 0 <= i < a.len() ==> !occurs_at(a + from + b, from, i),
    ensures
        replace_of(a + from + b, from, to) == a + to + replace_of(b, from, to),
    decreases a.len(),
{
    let s = a + from + b;
    if a.len() == 0 {
        assert(s =~= from + b);
        lemma_prefix(b, from);
        assert(s.skip(from.len() as int) =~= b);
        assert(a + to + replace_of(b, from, to) =~= to + replace_of(b, from, to));
    } else {
        let d = a.drop_first();
        assert(s.drop_first() =~= d + from + b);
        assert(!occurs_at(s, from, 0));
        assert(!has_prefix(s, from));
        assert forall|i: int| 0 <= i < d.len() implies !occurs_at(d + from + b, from, i) by {
            if occurs_at(d + from + b, from, i) {
                assert((d + from + b).subrange(i, i + from.len()) =~= s.subrange(i + 1, i + 1 + from.len()));
                assert(occurs_at(s, from, i + 1));
            }
        }
        lemma_replaced(d, from, to, b);
        assert(seq![s[0]] + (d + to + replace_of(b, from, to)) =~= a + to + replace_of(b, from, to));
    }
}

/// A text in which another does not stand has none of it replaced.
pub proof fn lemma_nothing_replaced(s: Seq<char>, from: Seq<char>, to: Seq<char>)
    requires
        !has_text(s, from),
    ensures
        replace_of(s, from, to) == s,
    decreases s.len(),
{
    if s.len() > 0 && from.len() > 0 {
        if has_prefix(s, from) {
            assert(occurs_at(s, from, 0));
        }
        let d = s.drop_first();
        if has_text(d, from) {
            let i = choose|i: int| occurs_at(d, from, i);
            assert(d.subrange(i, i + from.len()) =~= s.subrange(i + 1, i + 1 + from.len()));
            assert(occurs_at(s, from, i + 1));
        }
        lemma_nothing_replaced(d, from, to);
        assert(seq![s[0]] + d =~= s);
    }
}

} // verus!
