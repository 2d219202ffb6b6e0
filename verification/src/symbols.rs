//! Finding the game's functions: by a part of their symbol's name first, by a
//! fixed offset where the symbol is missing.

use crate::namemap::NameMap;
use crate::text::{contains, has_text};
use vstd::prelude::*;
use vstd::string::*;

verus! {

/// A function of the game: a part of its symbol's name, empty where it has no
/// symbol, and its offset from the program's base.
#[derive(Clone, Copy, Debug)]
pub struct GameFn {
    pub symbol: &'static str,
    pub rva: u64,
}

/// How the entities of one class are drawn. A symbol that is empty is one that
/// the class does not have.
#[derive(Clone, Copy, Debug)]
pub struct DrawTarget {
    pub gf: GameFn,
    /// Turns by its orientation and plays its clip while it moves.
    pub oriented: bool,
    /// Plays its clip whenever it is redrawn.
    pub anim_on_draw: bool,
    pub dir_sym: &'static str,
    pub orient_sym: &'static str,
    pub turret_sym: &'static str,
    pub progress_sym: &'static str,
    /// Where the wire connector stands in the entity; 0 where it has none.
    pub wire_off: u64,
    pub activity_sym: &'static str,
    /// Where the opening progress stands in the entity; 0 for what is no gate.
    pub gate_off: u64,
}

/// The addresses of the symbols that were found, by name.
pub type SymbolMap = NameMap<u64>;

/// The first symbol whose name holds `part`, among the first `n`.
pub open spec fn first_holding(keys: Seq<Seq<char>>, part: Seq<char>, n: int) -> Option<int>
    decreases n,
{
    if n <= 0 {
        None
    } else if first_holding(keys, part, n - 1) is Some {
        first_holding(keys, part, n - 1)
    } else if has_text(keys[n - 1], part) {
        Some(n - 1)
    } else {
        None
    }
}

/// The address of the first symbol whose name holds `part`. An empty part stands
/// for a symbol that there is not.
pub open spec fn symbol_address(symbols: SymbolMap, part: Seq<char>) -> Option<u64> {
    let hit = first_holding(symbols.keys(), part, symbols.keys().len() as int);
    if part.len() > 0 && hit is Some {
        Some(symbols@[symbols.keys()[hit->0]])
    } else {
        None
    }
}

/// The address of a function: that of the first symbol whose name holds the
/// function's, or else the base plus its offset.
pub open spec fn address_of(symbols: SymbolMap, base: int, gf: GameFn) -> int {
    match symbol_address(symbols, gf.symbol@) {
        Some(a) => a as int,
        None => base + gf.rva,
    }
}

proof fn lemma_first_holding(keys: Seq<Seq<char>>, part: Seq<char>, i: int, n: int)
    requires
        0 <= i < n,
        has_text(keys[i], part),
        forall|k: int| 0 <= k < i ==> !has_text(#[trigger] keys[k], part),
    ensures
        first_holding(keys, part, n) == Some(i),
    decreases n,
{
    if i < n - 1 {
        lemma_first_holding(keys, part, i, n - 1);
    } else {
        lemma_none_holding(keys, part, i);
    }
}

proof fn lemma_none_holding(keys: Seq<Seq<char>>, part: Seq<char>, n: int)
    requires
        forall|k: int| 0 <= k < n ==> !has_text(#[trigger] keys[k], part),
    ensures
        first_holding(keys, part, n) is None,
    decreases n,
{
    if n > 0 {
        lemma_none_holding(keys, part, n - 1);
    }
}

/// The address of the first symbol whose name holds `part`.
pub fn by_symbol(symbols: &SymbolMap, part: &str) -> (r: Option<u64>)
    requires
        symbols.wf(),
    ensures
        r == symbol_address(*symbols, part@),
{
    if part.unicode_len() > 0 {
        let mut i: usize = 0;
        while i < symbols.len()
            invariant
                symbols.wf(),
                part@.len() > 0,
                i <= symbols.keys().len(),
                forall|k: int|
                    0 <= k < i ==> !has_text(#[trigger] symbols.keys()[k], part@),
            decreases symbols.keys().len() - i,
        {
            if contains(symbols.key_at(i), part) {
                proof {
                    lemma_first_holding(
                        symbols.keys(),
                        part@,
                        i as int,
                        symbols.keys().len() as int,
                    );
                }
                return Some(*symbols.value_at(i));
            }
            i = i + 1;
        }
        proof {
            lemma_none_holding(symbols.keys(), part@, symbols.keys().len() as int);
        }
    }
    None
}

/// The address of one of the game's functions.
pub fn resolve(symbols: &SymbolMap, base: u64, gf: &GameFn) -> (r: u64)
    requires
        symbols.wf(),
        base + gf.rva <= u64::MAX,
    ensures
        r == address_of(*symbols, base as int, *gf),
{
    match by_symbol(symbols, gf.symbol) {
        Some(a) => a,
        None => base + gf.rva,
    }
}

/// A symbol of the debug database. Its offset is missing where the database
/// cannot tell it.
#[derive(Debug)]
pub struct PublicSymbol {
    pub name: String,
    pub rva: Option<u32>,
}

/// Some function that is looked for has a symbol whose name is a part of `name`.
pub open spec fn wanted_by(all: Seq<GameFn>, name: Seq<char>) -> bool {
    exists|i: int|
        0 <= i < all.len() && (#[trigger] all[i]).symbol@.len() > 0 && has_text(name, all[i].symbol@)
}

/// Whether a symbol belongs to one of the functions that are looked for.
pub fn wanted(all: &Vec<GameFn>, name: &str) -> (r: bool)
    ensures
        r == wanted_by(all@, name@),
{
    let mut i: usize = 0;
    while i < all.len()
        invariant
            i <= all.len(),
            forall|k: int|
                0 <= k < i ==> !((#[trigger] all@[k]).symbol@.len() > 0 && has_text(
                    name@,
                    all@[k].symbol@,
                )),
        decreases all.len() - i,
    {
        if all[i].symbol.unicode_len() > 0 && contains(name, all[i].symbol) {
            assert(all@[i as int].symbol@.len() > 0);
            return true;
        }
        i = i + 1;
    }
    false
}

/// The addresses of the wanted symbols: a name that comes up again takes its
/// later address.
pub open spec fn found_symbols(s: Seq<PublicSymbol>, all: Seq<GameFn>, base: int) -> Map<Seq<char>, u64>
    decreases s.len(),
{
    if s.len() == 0 {
        Map::empty()
    } else {
        let before = found_symbols(s.drop_last(), all, base);
        match s.last().rva {
            Some(rva) => if wanted_by(all, s.last().name@) {
                before.insert(s.last().name@, (base + rva) as u64)
            } else {
                before
            },
            None => before,
        }
    }
}

/// Collects the addresses of the functions that are looked for from the symbols
/// of the debug database.
pub fn find_game_functions(publics: &Vec<PublicSymbol>, all: &Vec<GameFn>, base: u64) -> (r: SymbolMap)
    requires
        base + u32::MAX <= u64::MAX,
    ensures
        r.wf(),
        r@ == found_symbols(publics@, all@, base as int),
{
    let mut r: SymbolMap = NameMap::new();
    let mut i: usize = 0;
    while i < publics.len()
        invariant
            i <= publics.len(),
            base + u32::MAX <= u64::MAX,
            r.wf(),
            r@ == found_symbols(publics@.take(i as int), all@, base as int),
        decreases publics.len() - i,
    {
        assert(publics@.take(i + 1).drop_last() =~= publics@.take(i as int));
        let p: &PublicSymbol = &publics[i];
        if wanted(all, p.name.as_str()) {
            match p.rva {
                Some(rva) => {
                    r.insert(p.name.clone(), base + rva as u64);
                },
                None => {},
            }
        }
        i = i + 1;
    }
    assert(publics@.take(i as int) =~= publics@);
    r
}

/// A function whose symbol was found is never placed by its offset, and one
/// without a symbol always is.
pub proof fn lemma_symbol_wins(symbols: SymbolMap, base: int, gf: GameFn, i: int)
    requires
        symbols.wf(),
        0 <= i < symbols.keys().len(),
    ensures
        gf.symbol@.len() > 0 && has_text(symbols.keys()[i], gf.symbol@) ==> exists|k: int|
            0 <= k <= i && has_text(#[trigger] symbols.keys()[k], gf.symbol@) && address_of(
                symbols,
                base,
                gf,
            ) == symbols@[symbols.keys()[k]],
        gf.symbol@.len() == 0 ==> address_of(symbols, base, gf) == base + gf.rva,
    decreases i,
{
    if gf.symbol@.len() > 0 && has_text(symbols.keys()[i], gf.symbol@) {
        if exists|k: int| 0 <= k < i && has_text(#[trigger] symbols.keys()[k], gf.symbol@) {
            let k = choose|k: int| 0 <= k < i && has_text(#[trigger] symbols.keys()[k], gf.symbol@);
            lemma_symbol_wins(symbols, base, gf, k);
        } else {
            lemma_first_holding(symbols.keys(), gf.symbol@, i, symbols.keys().len() as int);
        }
    }
}

/// A symbol is kept where one of the functions that are looked for is named in it and
/// its offset is known, under its own name and at the base plus its offset; of several
/// of one name the last counts.
pub proof fn lemma_which_symbols_are_kept(s: Seq<PublicSymbol>, all: Seq<GameFn>, base: int, name: Seq<char>, n: int)
    requires
        0 <= n <= s.len(),
    ensures
        ({
            let m = found_symbols(s.take(n), all, base);
            let wanted = exists|i: int|
                0 <= i < all.len() && (#[trigger] all[i]).symbol@.len() > 0 && has_text(name, all[i].symbol@);
            let known = exists|k: int| 0 <= k < n && (#[trigger] s[k]).name@ == name && s[k].rva is Some;
            &&& m.contains_key(name) <==> wanted && known
            &&& m.contains_key(name) ==> exists|k: int|
                0 <= k < n && (#[trigger] s[k]).name@ == name && s[k].rva is Some && m[name] == (base + s[k].rva->0) as u64
                    && forall|j: int| k < j < n && (#[trigger] s[j]).name@ == name ==> s[j].rva is None
        }),
    decreases n,
{
    if n > 0 {
        lemma_which_symbols_are_kept(s, all, base, name, n - 1);
        assert(s.take(n).drop_last() =~= s.take(n - 1));
        assert(s.take(n).last() == s[n - 1]);
        if s[n - 1].name@ == name && s[n - 1].rva is Some && wanted_by(all, name) {
            assert(found_symbols(s.take(n), all, base)[name] == (base + s[n - 1].rva->0) as u64);
        } else {
            assert(found_symbols(s.take(n), all, base).contains_key(name) == found_symbols(
                s.take(n - 1),
                all,
                base,
            ).contains_key(name));
            if found_symbols(s.take(n - 1), all, base).contains_key(name) {
                let m0 = found_symbols(s.take(n - 1), all, base);
                let k = choose|k: int|
                    0 <= k < n - 1 && (#[trigger] s[k]).name@ == name && s[k].rva is Some && m0[name] == (base
                        + s[k].rva->0) as u64 && forall|j: int|
                        k < j < n - 1 && (#[trigger] s[j]).name@ == name ==> s[j].rva is None;
                assert(wanted_by(all, name));
                assert(s[k].name@ == name);
            }
        }
    }
}

/// A function is found at the first symbol that holds its name, and otherwise by its
/// offset; one without a name only by its offset.
pub proof fn lemma_where_functions_are(symbols: &SymbolMap, base: u64, gf: &GameFn, r: u64, i: int)
    requires
        symbols.wf(),
        base + gf.rva <= u64::MAX,
        call_ensures(resolve, (symbols, base, gf), r),
    ensures
        ({
            let keys = symbols.keys();
            let holds = |k: int| 0 <= k < keys.len() && has_text(keys[k], gf.symbol@);
            &&& gf.symbol@.len() == 0 ==> r == base + gf.rva
            &&& gf.symbol@.len() > 0 && holds(i) && (forall|k: int| 0 <= k < i ==> !has_text(#[trigger] keys[k], gf.symbol@))
                ==> r == symbols@[keys[i]]
            &&& gf.symbol@.len() > 0 && (forall|k: int| 0 <= k < keys.len() ==> !has_text(#[trigger] keys[k], gf.symbol@))
                ==> r == base + gf.rva
        }),
{
    let keys = symbols.keys();
    let n = keys.len() as int;
    if 0 <= i < n && has_text(keys[i], gf.symbol@) && (forall|k: int|
        0 <= k < i ==> !has_text(#[trigger] keys[k], gf.symbol@)) {
        lemma_first_holding(keys, gf.symbol@, i, n);
    }
    if forall|k: int| 0 <= k < n ==> !has_text(#[trigger] keys[k], gf.symbol@) {
        lemma_none_holding(keys, gf.symbol@, n);
    }
}

} // verus!
