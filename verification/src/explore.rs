//! Searching the game's symbols.

use crate::text::{contains, has_text, lemma_lex_total, lemma_lex_transitive, lex_le, lowercase, str_le, to_lowercase};
use vstd::prelude::*;

verus! {

/// A symbol of the debug database. Its offset is missing where the database
/// gives none.
#[derive(Debug)]
pub struct AnySymbol {
    pub name: String,
    pub rva: Option<u32>,
    /// It is a procedure, and no public symbol.
    pub procedure: bool,
}

/// A symbol that was found, and its offset.
#[derive(Debug)]
pub struct Match {
    pub name: String,
    pub rva: u32,
}

/// What a `Match` is.
pub ghost struct MatchSpec {
    pub name: Seq<char>,
    pub rva: u32,
}

impl View for Match {
    type V = MatchSpec;

    open spec fn view(&self) -> MatchSpec {
        MatchSpec { name: self.name@, rva: self.rva }
    }
}

pub open spec fn match_views(v: Seq<Match>) -> Seq<MatchSpec> {
    v.map_values(|m: Match| m@)
}

/// The name of a symbol, in lower case, holds what is searched for.
pub fn name_matches(lower_name: &str, lower_search: &str) -> (r: bool)
    ensures
        r == has_text(lower_name@, lower_search@),
{
    contains(lower_name, lower_search)
}

/// The symbol is one that is searched for: case does not count, and procedures
/// are searched only where all symbols are.
pub open spec fn wanted_symbol(s: AnySymbol, search: Seq<char>, all: bool) -> bool {
    (all || !s.procedure) && has_text(lowercase(s.name@), lowercase(search))
}

pub open spec fn as_match(s: AnySymbol) -> MatchSpec {
    MatchSpec {
        name: s.name@,
        rva: match s.rva {
            Some(r) => r,
            None => 0,
        },
    }
}

/// The row with one more symbol, behind those whose names come no later.
pub open spec fn with_match(s: Seq<MatchSpec>, m: MatchSpec) -> Seq<MatchSpec>
    decreases s.len(),
{
    if s.len() == 0 || lex_le(s.last().name, m.name) {
        s.push(m)
    } else {
        with_match(s.drop_last(), m).push(s.last())
    }
}

/// The symbols that are searched for, by name.
pub open spec fn found_in(s: Seq<AnySymbol>, search: Seq<char>, all: bool) -> Seq<MatchSpec>
    decreases s.len(),
{
    if s.len() == 0 {
        Seq::empty()
    } else {
        let before = found_in(s.drop_last(), search, all);
        if wanted_symbol(s.last(), search, all) {
            with_match(before, as_match(s.last()))
        } else {
            before
        }
    }
}

fn insert_match(v: &mut Vec<Match>, m: Match)
    ensures
        match_views(final(v)@) == with_match(match_views(old(v)@), m@),
{
    let ghost s = match_views(v@);
    let ghost x = m@;
    let mut i: usize = v.len();
    assert(s.take(i as int) =~= s);
    while i > 0 && !str_le(v[i - 1].name.as_str(), m.name.as_str())
        invariant
            i <= v.len(),
            v@ == old(v)@,
            m@ == x,
            s == match_views(v@),
            with_match(s, x) == with_match(s.take(i as int), x) + s.skip(i as int),
        decreases i,
    {
        proof {
            let t = s.take(i as int);
            assert(t.last() == v@[i - 1]@);
            assert(t.drop_last() =~= s.take(i - 1));
            assert(with_match(t, x) == with_match(s.take(i - 1), x).push(t.last()));
            assert(with_match(s.take(i - 1), x).push(t.last()) + s.skip(i as int) =~= with_match(
                s.take(i - 1),
                x,
            ) + s.skip(i - 1));
        }
        i = i - 1;
    }
    proof {
        let t = s.take(i as int);
        if i > 0 {
            assert(t.last() == v@[i - 1]@);
        }
        assert(with_match(t, x) == t.push(x));
        assert(t.push(x) + s.skip(i as int) =~= s.insert(i as int, x));
    }
    v.insert(i, m);
    assert(match_views(v@) =~= s.insert(i as int, x));
}

/// The symbols that are searched for, by name.
pub fn search_symbols(symbols: &Vec<AnySymbol>, search: &str, all: bool) -> (r: Vec<Match>)
    ensures
        match_views(r@) == found_in(symbols@, search@, all),
{
    let lower: String = to_lowercase(search);
    let mut out: Vec<Match> = Vec::new();
    let mut i: usize = 0;
    assert(match_views(out@) =~= found_in(symbols@.take(0), search@, all));
    while i < symbols.len()
        invariant
            i <= symbols.len(),
            lower@ == lowercase(search@),
            match_views(out@) == found_in(symbols@.take(i as int), search@, all),
        decreases symbols.len() - i,
    {
        assert(symbols@.take(i + 1).drop_last() =~= symbols@.take(i as int));
        let s: &AnySymbol = &symbols[i];
        if all || !s.procedure {
            let name: String = to_lowercase(s.name.as_str());
            if name_matches(name.as_str(), lower.as_str()) {
                let rva: u32 = match s.rva {
                    Some(r) => r,
                    None => 0,
                };
                insert_match(&mut out, Match { name: s.name.clone(), rva });
            }
        }
        i = i + 1;
    }
    assert(symbols@.take(i as int) =~= symbols@);
    out
}

/// How many of the symbols that were found are shown.
pub fn shown(total: usize, max: usize) -> (r: usize)
    ensures
        r == if total < max {
            total
        } else {
            max
        },
{
    if total < max {
        total
    } else {
        max
    }
}

/// No name comes before one that stands ahead of it.
pub open spec fn by_name(s: Seq<MatchSpec>) -> bool {
    forall|i: int, j: int|
        0 <= i < j < s.len() ==> lex_le((#[trigger] s[i]).name, (#[trigger] s[j]).name)
}

proof fn lemma_with_match(s: Seq<MatchSpec>, m: MatchSpec)
    requires
        by_name(s),
    ensures
        by_name(with_match(s, m)),
        with_match(s, m).len() == s.len() + 1,
        with_match(s, m).to_multiset() == s.to_multiset().insert(m),
        forall|i: int|
            0 <= i < with_match(s, m).len() ==> (#[trigger] with_match(s, m)[i]) == m || s.contains(
                with_match(s, m)[i],
            ),
    decreases s.len(),
{
    let r = with_match(s, m);
    broadcast use vstd::seq_lib::group_to_multiset_ensures;
    if s.len() == 0 || lex_le(s.last().name, m.name) {
        assert forall|i: int, j: int| 0 <= i < j < r.len() implies lex_le((#[trigger] r[i]).name, (#[trigger] r[j]).name) by {
            if j == s.len() {
                if i < s.len() - 1 {
                    lemma_lex_transitive(s[i].name, s.last().name, m.name);
                }
            }
        }
        assert forall|i: int| 0 <= i < r.len() implies (#[trigger] r[i]) == m || s.contains(r[i]) by {
            if i < s.len() {
                assert(s[i] == r[i]);
            }
        }
    } else {
        let t = s.drop_last();
        lemma_with_match(t, m);
        let q = with_match(t, m);
        lemma_lex_total(s.last().name, m.name);
        assert(s =~= t.push(s.last()));
        assert forall|i: int, j: int| 0 <= i < j < r.len() implies lex_le((#[trigger] r[i]).name, (#[trigger] r[j]).name) by {
            if j < q.len() {
                assert(r[i] == q[i] && r[j] == q[j]);
            } else {
                assert(r[i] == q[i]);
                assert(q[i] == m || t.contains(q[i]));
                if t.contains(q[i]) {
                    let k = t.index_of(q[i]);
                    assert(s[k] == q[i]);
                    assert(lex_le(s[k].name, s[s.len() - 1].name));
                }
            }
        }
        assert forall|i: int| 0 <= i < r.len() implies (#[trigger] r[i]) == m || s.contains(r[i]) by {
            if i < q.len() {
                assert(r[i] == q[i]);
                if t.contains(q[i]) {
                    let k = t.index_of(q[i]);
                    assert(s[k] == q[i]);
                }
            } else {
                assert(s[s.len() - 1] == r[i]);
            }
        }
        assert(r.to_multiset() =~= s.to_multiset().insert(m));
    }
}

/// What is found is in the order of the names.
pub proof fn lemma_found_by_name(s: Seq<AnySymbol>, search: Seq<char>, all: bool)
    ensures
        by_name(found_in(s, search, all)),
    decreases s.len(),
{
    if s.len() > 0 {
        lemma_found_by_name(s.drop_last(), search, all);
        if wanted_symbol(s.last(), search, all) {
            lemma_with_match(found_in(s.drop_last(), search, all), as_match(s.last()));
        }
    }
}

/// Every symbol that is searched for is found as often as it occurs: one more
/// symbol adds itself, or nothing.
pub proof fn lemma_found_all(s: Seq<AnySymbol>, search: Seq<char>, all: bool, next: AnySymbol)
    ensures
        ({
            let before = found_in(s, search, all).to_multiset();
            found_in(s.push(next), search, all).to_multiset() == if wanted_symbol(
                next,
                search,
                all,
            ) {
                before.insert(as_match(next))
            } else {
                before
            }
        }),
{
    assert(s.push(next).drop_last() =~= s);
    lemma_found_by_name(s, search, all);
    if wanted_symbol(next, search, all) {
        lemma_with_match(found_in(s, search, all), as_match(next));
    }
}

/// A symbol is found where its name holds what is searched for, whatever the case of
/// either; a procedure only where all symbols are searched. It is found under its own
/// name, with its offset, or 0 where it has none.
pub proof fn lemma_which_symbols_are_found(s: Seq<AnySymbol>, search: Seq<char>, all: bool, m: MatchSpec)
    ensures
        found_in(s, search, all).contains(m) <==> exists|i: int|
            {
                &&& 0 <= i < s.len()
                &&& all || !(#[trigger] s[i]).procedure
                &&& has_text(lowercase(s[i].name@), lowercase(search))
                &&& m.name == s[i].name@
                &&& s[i].rva matches Some(r) ==> m.rva == r
                &&& s[i].rva is None ==> m.rva == 0
            },
    decreases s.len(),
{
    if s.len() > 0 {
        let d = s.drop_last();
        lemma_which_symbols_are_found(d, search, all, m);
        lemma_found_all(d, search, all, s.last());
        assert(d.push(s.last()) =~= s);
        let b = found_in(d, search, all);
        let w = found_in(s, search, all);
        b.to_multiset_ensures();
        w.to_multiset_ensures();
        assert(w.to_multiset().count(m) > 0 <==> w.contains(m));
        assert(b.to_multiset().count(m) > 0 <==> b.contains(m));
        assert forall|i: int| 0 <= i < d.len() implies #[trigger] d[i] == s[i] by {}
        let last = s.len() - 1;
        assert(s[last] == s.last());
    }
}

} // verus!
