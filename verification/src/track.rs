//! The path of a tank's chain, read from a file next to the model: points around
//! a closed loop, and the axis across it.

use crate::text::str_eq;
use vstd::prelude::*;
use vstd::string::*;

verus! {

/// A value that `serde_json` has parsed.
#[verifier::external_type_specification]
#[verifier::external_body]
pub struct ExValue(serde_json::Value);

/// A JSON value. Numbers are the bits of 64-bit floats.
#[derive(Debug)]
pub enum Json {
    Null,
    Bool(bool),
    Number(Option<u64>),
    Text(String),
    List(Vec<Json>),
    Object(Vec<(String, Json)>),
}

/// What a `Json` holds.
pub ghost enum JsonSpec {
    Null,
    Bool(bool),
    Number(Option<u64>),
    Text(Seq<char>),
    List(Seq<JsonSpec>),
    Object(Seq<(Seq<char>, JsonSpec)>),
}

pub open spec fn json_view(j: Json) -> JsonSpec
    decreases j,
{
    match j {
        Json::Null => JsonSpec::Null,
        Json::Bool(b) => JsonSpec::Bool(b),
        Json::Number(n) => JsonSpec::Number(n),
        Json::Text(t) => JsonSpec::Text(t@),
        Json::List(v) => JsonSpec::List(
            Seq::new(
                v@.len(),
                |i: int| if 0 <= i < v@.len() {
                    json_view(v@[i])
                } else {
                    JsonSpec::Null
                },
            ),
        ),
        Json::Object(v) => JsonSpec::Object(
            Seq::new(
                v@.len(),
                |i: int| if 0 <= i < v@.len() {
                    (v@[i].0@, json_view(v@[i].1))
                } else {
                    (Seq::empty(), JsonSpec::Null)
                },
            ),
        ),
    }
}

/// What a parsed value holds.
pub uninterp spec fn json_of(v: serde_json::Value) -> JsonSpec;

/// What `serde_json::from_str` makes of a text: a value, or nothing where the
/// text is no JSON.
pub uninterp spec fn parsed_json(text: Seq<char>) -> Option<JsonSpec>;

/// `serde_json::from_str`: parses a text, and gives up on one that is no JSON.
#[verifier::external_body]
fn json_value(text: &str) -> (r: Option<serde_json::Value>)
    ensures
        r is Some <==> parsed_json(text@) is Some,
        r matches Some(v) ==> parsed_json(text@) == Some(json_of(v)),
{
    serde_json::from_str(text).ok()
}

/// `serde_json::Value` with its variants taken apart. Numbers are read by
/// `Number::as_f64`; the fields of an object come in the map's own order, each
/// key once.
#[verifier::external_body]
fn json_from(v: serde_json::Value) -> (r: Json)
    ensures
        json_view(r) == json_of(v),
{
    match v {
        serde_json::Value::Null => Json::Null,
        serde_json::Value::Bool(b) => Json::Bool(b),
        serde_json::Value::Number(n) => Json::Number(n.as_f64().map(|x| x.to_bits())),
        serde_json::Value::String(s) => Json::Text(s),
        serde_json::Value::Array(a) => Json::List(a.into_iter().map(json_from).collect()),
        serde_json::Value::Object(m) => {
            Json::Object(m.into_iter().map(|(k, x)| (k, json_from(x))).collect())
        },
    }
}

pub open spec fn json_opt(j: Option<Json>) -> Option<JsonSpec> {
    match j {
        Some(j) => Some(json_view(j)),
        None => None,
    }
}

/// Parses a text.
pub fn parse_json(text: &str) -> (r: Option<Json>)
    ensures
        json_opt(r) == parsed_json(text@),
{
    match json_value(text) {
        Some(v) => Some(json_from(v)),
        None => None,
    }
}

/// The three coordinates of a point, as the bits of 64-bit floats.
#[derive(Clone, Copy, PartialEq, Eq, Structural, Debug)]
pub struct Coords {
    pub x: u64,
    pub y: u64,
    pub z: u64,
}

pub open spec fn number_of(j: JsonSpec) -> Option<u64> {
    match j {
        JsonSpec::Number(n) => n,
        _ => None,
    }
}

/// A list of at least three items, the first three of them numbers.
pub open spec fn coords_of(j: JsonSpec) -> Option<Coords> {
    match j {
        JsonSpec::List(s) => if s.len() >= 3 && number_of(s[0]) is Some && number_of(s[1]) is Some
            && number_of(s[2]) is Some {
            Some(
                Coords { x: number_of(s[0])->0, y: number_of(s[1])->0, z: number_of(s[2])->0 },
            )
        } else {
            None
        },
        _ => None,
    }
}

/// The points among the items of a list, in order; what is no point is left out.
pub open spec fn points_in(s: Seq<JsonSpec>) -> Seq<Coords>
    decreases s.len(),
{
    if s.len() == 0 {
        Seq::empty()
    } else {
        match coords_of(s.last()) {
            Some(c) => points_in(s.drop_last()).push(c),
            None => points_in(s.drop_last()),
        }
    }
}

/// The field `key` of an object.
pub open spec fn field_of(j: JsonSpec, key: Seq<char>) -> Option<JsonSpec> {
    match j {
        JsonSpec::Object(s) => first_field(s, key),
        _ => None,
    }
}

pub open spec fn first_field(s: Seq<(Seq<char>, JsonSpec)>, key: Seq<char>) -> Option<JsonSpec>
    decreases s.len(),
{
    if s.len() == 0 {
        None
    } else if s[0].0 == key {
        Some(s[0].1)
    } else {
        first_field(s.drop_first(), key)
    }
}

fn number(j: &Json) -> (r: Option<u64>)
    ensures
        r == number_of(json_view(*j)),
{
    match j {
        Json::Number(n) => *n,
        _ => None,
    }
}

fn coords(j: &Json) -> (r: Option<Coords>)
    ensures
        r == coords_of(json_view(*j)),
{
    match j {
        Json::List(v) => {
            if v.len() < 3 {
                return None;
            }
            match (number(&v[0]), number(&v[1]), number(&v[2])) {
                (Some(x), Some(y), Some(z)) => Some(Coords { x, y, z }),
                _ => None,
            }
        },
        _ => None,
    }
}

fn field<'a>(j: &'a Json, key: &str) -> (r: Option<&'a Json>)
    ensures
        r is Some <==> field_of(json_view(*j), key@) is Some,
        r matches Some(f) ==> field_of(json_view(*j), key@) == Some(json_view(*f)),
{
    match j {
        Json::Object(v) => {
            let ghost s = json_view(*j)->Object_0;
            let mut i: usize = 0;
            assert(s.skip(0) =~= s);
            while i < v.len()
                invariant
                    i <= v.len(),
                    s.len() == v@.len(),
                    forall|k: int| 0 <= k < s.len() ==> #[trigger] s[k] == (v@[k].0@, json_view(v@[k].1)),
                    first_field(s, key@) == first_field(s.skip(i as int), key@),
                    json_view(*j) == JsonSpec::Object(s),
                decreases v.len() - i,
            {
                assert(s.skip(i as int)[0] == s[i as int]);
                assert(s.skip(i as int).drop_first() =~= s.skip(i + 1));
                if str_eq(v[i].0.as_str(), key) {
                    return Some(&v[i].1);
                }
                i = i + 1;
            }
            None
        },
        _ => None,
    }
}

/// The fewest points of a path.
pub const MIN_TRACK_PTS: usize = 3;

/// The most points of a path, which is what the shader takes.
pub const MAX_TRACK_PTS: usize = 64;

/// The path of a chain. The axis across it is missing where the file does not
/// give it.
#[derive(Debug)]
pub struct TrackPath {
    pub points: Vec<Coords>,
    pub lateral: Option<Coords>,
}

/// The points of a file.
pub open spec fn path_points(j: JsonSpec) -> Option<Seq<Coords>> {
    match field_of(j, "points"@) {
        Some(p) => match p {
            JsonSpec::List(s) => Some(points_in(s)),
            _ => None,
        },
        None => None,
    }
}

/// The axis of a file.
pub open spec fn path_lateral(j: JsonSpec) -> Option<Coords> {
    match field_of(j, "lateral"@) {
        Some(l) => coords_of(l),
        None => None,
    }
}

/// A file gives a path where it lists as many points as a path may have.
pub open spec fn gives_path(j: JsonSpec) -> bool {
    path_points(j) is Some && MIN_TRACK_PTS <= path_points(j)->0.len() <= MAX_TRACK_PTS
}

/// The path that a parsed file gives.
pub fn track_path_from(j: &Json) -> (r: Option<TrackPath>)
    ensures
        r is Some <==> gives_path(json_view(*j)),
        r matches Some(p) ==> {
            &&& Some(p.points@) == path_points(json_view(*j))
            &&& p.lateral == path_lateral(json_view(*j))
        },
{
    let list: &Json = match field(j, "points") {
        Some(l) => l,
        None => {
            return None;
        },
    };
    let mut points: Vec<Coords> = Vec::new();
    match list {
        Json::List(v) => {
            let ghost s = json_view(*list)->List_0;
            let mut i: usize = 0;
            while i < v.len()
                invariant
                    i <= v.len(),
                    s.len() == v@.len(),
                    forall|k: int| 0 <= k < s.len() ==> #[trigger] s[k] == json_view(v@[k]),
                    points@ == points_in(s.take(i as int)),
                decreases v.len() - i,
            {
                assert(s.take(i + 1).drop_last() =~= s.take(i as int));
                assert(s.take(i + 1).last() == s[i as int]);
                match coords(&v[i]) {
                    Some(c) => {
                        points.push(c);
                    },
                    None => {},
                }
                i = i + 1;
            }
            assert(s.take(i as int) =~= s);
        },
        _ => {
            return None;
        },
    }
    if points.len() < MIN_TRACK_PTS || points.len() > MAX_TRACK_PTS {
        return None;
    }
    let lateral: Option<Coords> = match field(j, "lateral") {
        Some(l) => coords(l),
        None => None,
    };
    Some(TrackPath { points, lateral })
}

/// The path that the text of a file gives.
pub fn load_track_path(text: &str) -> (r: Option<TrackPath>)
    ensures
        r is Some <==> parsed_json(text@) is Some && gives_path(parsed_json(text@)->0),
        r matches Some(p) ==> {
            &&& Some(p.points@) == path_points(parsed_json(text@)->0)
            &&& p.lateral == path_lateral(parsed_json(text@)->0)
        },
{
    match parse_json(text) {
        Some(j) => track_path_from(&j),
        None => None,
    }
}

/// A point is a list that begins with three numbers: x, y and z.
pub proof fn lemma_points(s: Seq<JsonSpec>)
    ensures
        coords_of(JsonSpec::List(s)) is Some <==> s.len() >= 3 && (s[0] matches JsonSpec::Number(Some(_))) && (s[1] matches JsonSpec::Number(
            Some(_),
        )) && (s[2] matches JsonSpec::Number(Some(_))),
        coords_of(JsonSpec::List(s)) matches Some(c) ==> s[0] == JsonSpec::Number(Some(c.x)) && s[1]
            == JsonSpec::Number(Some(c.y)) && s[2] == JsonSpec::Number(Some(c.z)),
{
}

/// The points of a list keep their order, and what is no point is left out.
pub proof fn lemma_points_in_order(a: Seq<JsonSpec>, b: Seq<JsonSpec>, j: JsonSpec)
    ensures
        points_in(a + b) == points_in(a) + points_in(b),
        coords_of(j) matches Some(c) ==> points_in(seq![j]) == seq![c],
        coords_of(j) is None ==> points_in(seq![j]).len() == 0,
    decreases b.len(),
{
    assert(seq![j].drop_last() =~= Seq::<JsonSpec>::empty());
    assert(points_in(Seq::<JsonSpec>::empty()) =~= Seq::<Coords>::empty());
    if coords_of(j) is Some {
        assert(points_in(seq![j]) =~= seq![coords_of(j)->0]);
    }
    if b.len() > 0 {
        lemma_points_in_order(a, b.drop_last(), j);
        assert((a + b).drop_last() =~= a + b.drop_last());
        assert((a + b).last() == b.last());
        assert(points_in(a + b) =~= points_in(a) + points_in(b));
    } else {
        assert(a + b =~= a);
        assert(points_in(a) + points_in(b) =~= points_in(a));
    }
}

/// A file gives a path where its list of points holds from three to 64 of them; the axis
/// across the path is given besides, or not.
pub proof fn lemma_paths(j: &Json, r: Option<TrackPath>, s: Seq<JsonSpec>)
    requires
        call_ensures(track_path_from, (j,), r),
        field_of(json_view(*j), "points"@) == Some(JsonSpec::List(s)),
    ensures
        r is Some <==> 3 <= points_in(s).len() <= 64,
        r matches Some(p) ==> p.points@ == points_in(s),
        r matches Some(p) ==> field_of(json_view(*j), "lateral"@) is None ==> p.lateral is None,
        r matches Some(p) ==> (field_of(json_view(*j), "lateral"@) matches Some(l) ==> p.lateral == coords_of(l)),
{
}

/// A field is the first of its name.
pub proof fn lemma_fields(s: Seq<(Seq<char>, JsonSpec)>, key: Seq<char>)
    ensures
        first_field(s, key) is None ==> forall|i: int| 0 <= i < s.len() ==> (#[trigger] s[i]).0 != key,
        first_field(s, key) matches Some(v) ==> exists|i: int|
            0 <= i < s.len() && (#[trigger] s[i]).0 == key && s[i].1 == v && forall|j: int|
                0 <= j < i ==> (#[trigger] s[j]).0 != key,
    decreases s.len(),
{
    if s.len() > 0 {
        if s[0].0 == key {
            assert(s[0].1 == first_field(s, key)->0);
        } else {
            let d = s.drop_first();
            lemma_fields(d, key);
            if first_field(d, key) is Some {
                let v = first_field(d, key)->0;
                let i = choose|i: int|
                    0 <= i < d.len() && (#[trigger] d[i]).0 == key && d[i].1 == v && forall|j: int|
                        0 <= j < i ==> (#[trigger] d[j]).0 != key;
                assert(s[i + 1] == d[i]);
                assert forall|j: int| 0 <= j < i + 1 implies (#[trigger] s[j]).0 != key by {
                    if j > 0 {
                        assert(d[j - 1] == s[j]);
                    }
                }
            } else {
                assert forall|i: int| 0 <= i < s.len() implies (#[trigger] s[i]).0 != key by {
                    if i > 0 {
                        assert(d[i - 1] == s[i]);
                    }
                }
            }
        }
    }
}

} // verus!
