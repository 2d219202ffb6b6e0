//! The sky: which planet the surface belongs to, and the colors of its day and
//! its night.

use vstd::prelude::*;

verus! {

/// What is known of the planet.
#[derive(Clone, Copy, PartialEq, Eq, Structural, Debug)]
pub struct Sky {
    pub planet: u8,
    pub last_surface: u64,
}

impl Sky {
    /// The planet is one of those that have a number.
    pub open spec fn wf(&self) -> bool {
        self.planet <= 5
    }

    pub fn new() -> (r: Sky)
        ensures
            r.wf(),
            r == (Sky { planet: 0, last_surface: 0 }),
    {
        Sky { planet: 0, last_surface: 0 }
    }
}

/// The planet: 0 is nauvis, 1 vulcanus, 2 fulgora, 3 gleba, 4 aquilo, and 5 a
/// space platform.
pub fn planet(s: &Sky) -> (r: u8)
    requires
        s.wf(),
    ensures
        r == s.planet,
        r <= 5,
{
    s.planet
}

/// `p` stands somewhere in `s`.
pub open spec fn has_bytes(s: Seq<u8>, p: Seq<u8>) -> bool {
    exists|i: int| 0 <= i && i + p.len() <= s.len() && #[trigger] s.subrange(i, i + p.len()) == p
}

/// The bytes of the name of each planet.
pub open spec fn name_bytes(id: u8) -> Seq<u8> {
    if id == 0 {
        seq![0x6eu8, 0x61u8, 0x75u8, 0x76u8, 0x69u8, 0x73u8]
    } else if id == 1 {
        seq![0x76u8, 0x75u8, 0x6cu8, 0x63u8, 0x61u8, 0x6eu8, 0x75u8, 0x73u8]
    } else if id == 2 {
        seq![0x66u8, 0x75u8, 0x6cu8, 0x67u8, 0x6fu8, 0x72u8, 0x61u8]
    } else if id == 3 {
        seq![0x67u8, 0x6cu8, 0x65u8, 0x62u8, 0x61u8]
    } else if id == 4 {
        seq![0x61u8, 0x71u8, 0x75u8, 0x69u8, 0x6cu8, 0x6fu8]
    } else {
        seq![0x70u8, 0x6cu8, 0x61u8, 0x74u8, 0x66u8, 0x6fu8, 0x72u8, 0x6du8]
    }
}

/// The planet whose name stands in the bytes of a surface. Distinctive names
/// come first, and platforms last, so that real planets win.
pub open spec fn planet_in(b: Seq<u8>) -> Option<u8> {
    if has_bytes(b, name_bytes(1)) {
        Some(1)
    } else if has_bytes(b, name_bytes(2)) {
        Some(2)
    } else if has_bytes(b, name_bytes(3)) {
        Some(3)
    } else if has_bytes(b, name_bytes(4)) {
        Some(4)
    } else if has_bytes(b, name_bytes(0)) {
        Some(0)
    } else if has_bytes(b, name_bytes(5)) {
        Some(5)
    } else {
        None
    }
}

fn name_of(id: u8) -> (r: Vec<u8>)
    ensures
        r@ == name_bytes(id),
{
    let mut r: Vec<u8> = Vec::new();
    if id == 0 {
        r.push(0x6e);
        r.push(0x61);
        r.push(0x75);
        r.push(0x76);
        r.push(0x69);
        r.push(0x73);
    } else if id == 1 {
        r.push(0x76);
        r.push(0x75);
        r.push(0x6c);
        r.push(0x63);
        r.push(0x61);
        r.push(0x6e);
        r.push(0x75);
        r.push(0x73);
    } else if id == 2 {
        r.push(0x66);
        r.push(0x75);
        r.push(0x6c);
        r.push(0x67);
        r.push(0x6f);
        r.push(0x72);
        r.push(0x61);
    } else if id == 3 {
        r.push(0x67);
        r.push(0x6c);
        r.push(0x65);
        r.push(0x62);
        r.push(0x61);
    } else if id == 4 {
        r.push(0x61);
        r.push(0x71);
        r.push(0x75);
        r.push(0x69);
        r.push(0x6c);
        r.push(0x6f);
    } else {
        r.push(0x70);
        r.push(0x6c);
        r.push(0x61);
        r.push(0x74);
        r.push(0x66);
        r.push(0x6f);
        r.push(0x72);
        r.push(0x6d);
    }
    assert(r@ =~= name_bytes(id));
    r
}

fn bytes_at(b: &Vec<u8>, i: usize, p: &Vec<u8>) -> (r: bool)
    requires
        i + p.len() <= b.len(),
    ensures
        r == (b@.subrange(i as int, i + p.len()) == p@),
{
    let mut k: usize = 0;
    while k < p.len()
        invariant
            k <= p.len(),
            i + p.len() <= b.len(),
            forall|j: int| 0 <= j < k ==> b@[i + j] == p@[j],
        decreases p.len() - k,
    {
        if b[i + k] != p[k] {
            assert(b@.subrange(i as int, i + p.len())[k as int] == b@[i + k]);
            return false;
        }
        k = k + 1;
    }
    assert(b@.subrange(i as int, i + p.len()) =~= p@);
    true
}

fn holds(b: &Vec<u8>, id: u8) -> (r: bool)
    ensures
        r == has_bytes(b@, name_bytes(id)),
{
    let p: Vec<u8> = name_of(id);
    if p.len() > b.len() {
        return false;
    }
    let mut i: usize = 0;
    let last: usize = b.len() - p.len();
    while i < last
        invariant
            i <= last,
            last == b.len() - p.len(),
            p@ == name_bytes(id),
            forall|j: int| 0 <= j < i ==> #[trigger] b@.subrange(j, j + p.len()) != p@,
        decreases last - i,
    {
        if bytes_at(b, i, &p) {
            return true;
        }
        i = i + 1;
    }
    bytes_at(b, last, &p)
}

/// The planet whose name stands in the bytes of a surface.
pub fn classify_surface(bytes: &Vec<u8>) -> (r: Option<u8>)
    ensures
        r == planet_in(bytes@),
{
    if holds(bytes, 1) {
        Some(1)
    } else if holds(bytes, 2) {
        Some(2)
    } else if holds(bytes, 3) {
        Some(3)
    } else if holds(bytes, 4) {
        Some(4)
    } else if holds(bytes, 0) {
        Some(0)
    } else if holds(bytes, 5) {
        Some(5)
    } else {
        None
    }
}

/// A surface is there, and it is another one than last time.
pub open spec fn is_new(s: Sky, surface: u64) -> bool {
    surface != 0 && surface != s.last_surface
}

/// What is known once a surface was looked at.
pub open spec fn visited(s: Sky, surface: u64) -> Sky {
    if surface == 0 {
        s
    } else {
        Sky { last_surface: surface, ..s }
    }
}

/// What is known once the bytes of a new surface were read.
pub open spec fn read_surface(s: Sky, bytes: Seq<u8>) -> Sky {
    match planet_in(bytes) {
        Some(id) => Sky { planet: id, ..s },
        None => s,
    }
}

/// Whether a surface has to be read: it is there, and it is another one than
/// last time.
pub fn is_new_surface(s: &mut Sky, surface: u64) -> (r: bool)
    requires
        old(s).wf(),
    ensures
        final(s).wf(),
        r == is_new(*old(s), surface),
        *final(s) == visited(*old(s), surface),
{
    if surface == 0 {
        return false;
    }
    let fresh: bool = surface != s.last_surface;
    s.last_surface = surface;
    fresh
}

/// Takes the bytes of a new surface. Where they name no planet, the last one
/// stays.
pub fn detect_planet(s: &mut Sky, bytes: &Vec<u8>)
    requires
        old(s).wf(),
    ensures
        final(s).wf(),
        *final(s) == read_surface(*old(s), bytes@),
{
    match classify_surface(bytes) {
        Some(id) => {
            s.planet = id;
        },
        None => {},
    }
}

/// What is known after surfaces were detected one after the other, each with its
/// bytes: those of a new one are read.
pub open spec fn detected(seen: Seq<(u64, Seq<u8>)>) -> Sky
    decreases seen.len(),
{
    if seen.len() == 0 {
        Sky { planet: 0, last_surface: 0 }
    } else {
        let before = detected(seen.drop_last());
        let (surface, bytes) = seen.last();
        let after = visited(before, surface);
        if is_new(before, surface) {
            read_surface(after, bytes)
        } else {
            after
        }
    }
}

/// The last surface that was there.
pub open spec fn last_there(seen: Seq<(u64, Seq<u8>)>) -> u64
    decreases seen.len(),
{
    if seen.len() == 0 {
        0
    } else if seen.last().0 != 0 {
        seen.last().0
    } else {
        last_there(seen.drop_last())
    }
}

/// The planet that the last new surface with a name on it names.
pub open spec fn last_named(seen: Seq<(u64, Seq<u8>)>) -> Option<u8>
    decreases seen.len(),
{
    if seen.len() == 0 {
        None
    } else {
        let (surface, bytes) = seen.last();
        let fresh = surface != 0 && surface != last_there(seen.drop_last());
        if fresh && planet_in(bytes) is Some {
            planet_in(bytes)
        } else {
            last_named(seen.drop_last())
        }
    }
}

/// Whatever surfaces were detected, the planet is that of the last new one that
/// names any, and nauvis before there was one.
pub proof fn lemma_planet_is_last_named(seen: Seq<(u64, Seq<u8>)>)
    ensures
        detected(seen).wf(),
        detected(seen).last_surface == last_there(seen),
        detected(seen).planet == match last_named(seen) {
            Some(id) => id,
            None => 0,
        },
    decreases seen.len(),
{
    if seen.len() > 0 {
        lemma_planet_is_last_named(seen.drop_last());
    }
}

/// A color, in hundredths.
pub type Rgb = (u8, u8, u8);

/// The colors of the sky by day and by night, in hundredths. Platforms and what
/// is unknown have the sky of nauvis.
pub fn sky_day_night(planet: u8) -> (r: (Rgb, Rgb))
    ensures
        r == if planet == 1 {
            ((16u8, 9u8, 5u8), (5u8, 3u8, 2u8))
        } else if planet == 2 {
            ((14u8, 6u8, 18u8), (5u8, 2u8, 8u8))
        } else if planet == 3 {
            ((10u8, 20u8, 16u8), (3u8, 7u8, 6u8))
        } else if planet == 4 {
            ((6u8, 10u8, 18u8), (2u8, 4u8, 8u8))
        } else {
            ((32u8, 52u8, 85u8), (2u8, 3u8, 7u8))
        },
{
    if planet == 1 {
        ((16, 9, 5), (5, 3, 2))
    } else if planet == 2 {
        ((14, 6, 18), (5, 2, 8))
    } else if planet == 3 {
        ((10, 20, 16), (3, 7, 6))
    } else if planet == 4 {
        ((6, 10, 18), (2, 4, 8))
    } else {
        ((32, 52, 85), (2, 3, 7))
    }
}

/// The names of the planets, in their order, and that of platforms.
pub proof fn lemma_names_of_planets()
    ensures
        name_bytes(0).map_values(|b: u8| b as char) == "nauvis"@,
        name_bytes(1).map_values(|b: u8| b as char) == "vulcanus"@,
        name_bytes(2).map_values(|b: u8| b as char) == "fulgora"@,
        name_bytes(3).map_values(|b: u8| b as char) == "gleba"@,
        name_bytes(4).map_values(|b: u8| b as char) == "aquilo"@,
        name_bytes(5).map_values(|b: u8| b as char) == "platform"@,
{
    reveal_strlit("nauvis");
    reveal_strlit("vulcanus");
    reveal_strlit("fulgora");
    reveal_strlit("gleba");
    reveal_strlit("aquilo");
    reveal_strlit("platform");
    assert(name_bytes(0).map_values(|b: u8| b as char) =~= "nauvis"@);
    assert(name_bytes(1).map_values(|b: u8| b as char) =~= "vulcanus"@);
    assert(name_bytes(2).map_values(|b: u8| b as char) =~= "fulgora"@);
    assert(name_bytes(3).map_values(|b: u8| b as char) =~= "gleba"@);
    assert(name_bytes(4).map_values(|b: u8| b as char) =~= "aquilo"@);
    assert(name_bytes(5).map_values(|b: u8| b as char) =~= "platform"@);
}

/// A surface is of the planet whose name stands anywhere in its bytes. Where several
/// do, nauvis counts only without another planet, and a platform only without any.
pub proof fn lemma_which_planet(bytes: &Vec<u8>, r: Option<u8>, id: u8, at: int)
    requires
        call_ensures(classify_surface, (bytes,), r),
        id <= 5,
        0 <= at,
        at + name_bytes(id).len() <= bytes@.len(),
        forall|k: int| 0 <= k < name_bytes(id).len() ==> bytes@[at + k] == #[trigger] name_bytes(id)[k],
    ensures
        r is Some,
        r->0 <= 5,
        r->0 == 5 ==> id == 5,
        r->0 == 0 ==> id == 0 || id == 5,
        1 <= id <= 4 ==> 1 <= r->0 <= id,
{
    assert(bytes@.subrange(at, at + name_bytes(id).len()) =~= name_bytes(id));
    assert(has_bytes(bytes@, name_bytes(id)));
}

/// A surface that is of a planet holds its name.
pub proof fn lemma_planet_is_named(bytes: &Vec<u8>, r: Option<u8>)
    requires
        call_ensures(classify_surface, (bytes,), r),
    ensures
        r matches Some(id) ==> id <= 5 && exists|at: int|
            0 <= at && at + name_bytes(id).len() <= bytes@.len() && #[trigger] bytes@.subrange(
                at,
                at + name_bytes(id).len(),
            ) == name_bytes(id),
{
}

/// A surface is read where it is there and another one than the last that was.
pub proof fn lemma_new_surfaces(s: Sky, surface: u64)
    ensures
        surface == 0 ==> !is_new(s, surface) && visited(s, surface) == s,
        surface != 0 ==> is_new(s, surface) == (s.last_surface != surface) && !is_new(
            visited(s, surface),
            surface,
        ) && visited(s, surface).planet == s.planet,
{
}

/// Each planet has a sky of its own by day and by night; nights are darker.
pub proof fn lemma_skies(planet: u8, r: (Rgb, Rgb))
    requires
        call_ensures(sky_day_night, (planet,), r),
    ensures
        ({
            let (day, night) = r;
            night.0 < day.0 && night.1 < day.1 && night.2 < day.2
        }),
        planet == 1 ==> r == ((16u8, 9u8, 5u8), (5u8, 3u8, 2u8)),
        planet == 2 ==> r == ((14u8, 6u8, 18u8), (5u8, 2u8, 8u8)),
        planet == 3 ==> r == ((10u8, 20u8, 16u8), (3u8, 7u8, 6u8)),
        planet == 4 ==> r == ((6u8, 10u8, 18u8), (2u8, 4u8, 8u8)),
        planet == 0 || planet > 4 ==> r == ((32u8, 52u8, 85u8), (2u8, 3u8, 7u8)),
{
}

} // verus!
