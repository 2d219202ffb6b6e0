//! The settings that can be changed while the game runs. They stand in a text
//! file that is read over and over.

use crate::split::{first_index, split, split_on, split_once, trim, trimmed};
use crate::text::{
    contains, has_prefix, has_text, join2, lowercase, starts_with, str_eq, strip_prefix,
    to_lowercase, to_uppercase, uppercase, views,
};
use crate::util::{looked_up, memo};
use std::collections::HashMap;
use vstd::prelude::*;
use vstd::string::*;

verus! {

broadcast use vstd::std_specs::hash::group_hash_axioms;

/// What a line sets.
#[derive(Clone, Copy, PartialEq, Eq, Structural, Debug)]
pub enum LineKind {
    /// Where a model is placed.
    Offset,
    /// One more place for a model.
    Extra,
    /// A single number.
    Value,
}

/// A line of the file: what it sets, and the texts of its numbers.
#[derive(Debug)]
pub struct Line {
    pub kind: LineKind,
    pub name: String,
    pub values: Vec<String>,
}

/// What a `Line` says.
pub ghost struct LineSpec {
    pub kind: LineKind,
    pub name: Seq<char>,
    pub values: Seq<Seq<char>>,
}

impl View for Line {
    type V = LineSpec;

    open spec fn view(&self) -> LineSpec {
        LineSpec { kind: self.kind, name: self.name@, values: views(self.values@) }
    }
}

pub open spec fn line_views(v: Seq<Line>) -> Seq<LineSpec> {
    v.map_values(|l: Line| l@)
}

pub open spec fn all_trimmed(s: Seq<Seq<char>>) -> Seq<Seq<char>> {
    s.map_values(|t: Seq<char>| trimmed(t))
}

/// What a line says; nothing for one that is empty, is a comment or has no `=`.
pub open spec fn line_of(raw: Seq<char>) -> Option<LineSpec> {
    let line = trimmed(raw);
    if line.len() == 0 || line[0] == '#' || first_index(line, '=') is None {
        None
    } else {
        let i = first_index(line, '=')->0;
        let k = trimmed(line.take(i));
        let v = trimmed(line.skip(i + 1));
        if has_prefix(k, "off:"@) {
            Some(
                LineSpec {
                    kind: LineKind::Offset,
                    name: trimmed(k.skip(4)),
                    values: all_trimmed(split_on(v, ',')),
                },
            )
        } else if has_prefix(k, "copy:"@) {
            Some(
                LineSpec {
                    kind: LineKind::Extra,
                    name: trimmed(k.skip(5)),
                    values: all_trimmed(split_on(v, ',')),
                },
            )
        } else {
            Some(LineSpec { kind: LineKind::Value, name: k, values: seq![v] })
        }
    }
}

fn trim_all(v: &Vec<String>) -> (r: Vec<String>)
    ensures
        views(r@) == all_trimmed(views(v@)),
{
    let mut out: Vec<String> = Vec::new();
    let mut i: usize = 0;
    while i < v.len()
        invariant
            i <= v.len(),
            views(out@) == all_trimmed(views(v@)).take(i as int),
        decreases v.len() - i,
    {
        let ghost before = out@;
        let t: String = trim(v[i].as_str());
        out.push(t);
        assert(views(out@) =~= views(before).push(t@));
        assert(all_trimmed(views(v@)).take(i + 1) =~= all_trimmed(views(v@)).take(i as int).push(
            trimmed(v@[i as int]@),
        ));
        i = i + 1;
    }
    assert(all_trimmed(views(v@)).take(i as int) =~= all_trimmed(views(v@)));
    out
}

fn rest(k: &str, prefix: &str) -> (r: Option<String>)
    ensures
        r is Some <==> has_prefix(k@, prefix@),
        r matches Some(n) ==> n@ == trimmed(k@.skip(prefix@.len() as int)),
{
    match strip_prefix(k, prefix) {
        Some(n) => {
            assert(k@.skip(prefix@.len() as int) =~= n@);
            Some(trim(n.as_str()))
        },
        None => None,
    }
}

/// What a line says.
pub fn parse_line(raw: &str) -> (r: Option<Line>)
    ensures
        r is Some <==> line_of(raw@) is Some,
        r matches Some(l) ==> line_of(raw@) == Some(l@),
{
    proof {
        reveal_strlit("#");
        reveal_strlit("off:");
        reveal_strlit("copy:");
    }
    let line: String = trim(raw);
    if line.as_str().unicode_len() == 0 || starts_with(line.as_str(), "#") {
        assert(line@.len() > 0 ==> line@.subrange(0, 1)[0] == line@[0]);
        return None;
    }
    assert(line@[0] != '#') by {
        if line@[0] == '#' {
            assert(line@.subrange(0, 1) =~= "#"@);
        }
    }
    let (k, v): (String, String) = match split_once(line.as_str(), '=') {
        Some((k, v)) => (trim(k.as_str()), trim(v.as_str())),
        None => {
            return None;
        },
    };
    match rest(k.as_str(), "off:") {
        Some(name) => {
            return Some(
                Line { kind: LineKind::Offset, name, values: trim_all(&split(v.as_str(), ',')) },
            );
        },
        None => {},
    }
    match rest(k.as_str(), "copy:") {
        Some(name) => {
            return Some(
                Line { kind: LineKind::Extra, name, values: trim_all(&split(v.as_str(), ',')) },
            );
        },
        None => {},
    }
    let mut values: Vec<String> = Vec::new();
    let ghost text = v@;
    values.push(v);
    assert(views(values@) =~= seq![text]);
    Some(Line { kind: LineKind::Value, name: k, values })
}

/// What the lines of a file say.
pub open spec fn lines_of(s: Seq<Seq<char>>) -> Seq<LineSpec>
    decreases s.len(),
{
    if s.len() == 0 {
        Seq::empty()
    } else {
        match line_of(s.last()) {
            Some(l) => lines_of(s.drop_last()).push(l),
            None => lines_of(s.drop_last()),
        }
    }
}

/// What the lines of a file say, in their order.
pub fn parse_file(text: &str) -> (r: Vec<Line>)
    ensures
        line_views(r@) == lines_of(split_on(text@, '\n')),
{
    let raw: Vec<String> = split(text, '\n');
    let ghost all = views(raw@);
    let mut out: Vec<Line> = Vec::new();
    let mut i: usize = 0;
    assert(line_views(out@) =~= lines_of(all.take(0)));
    while i < raw.len()
        invariant
            i <= raw.len(),
            all == views(raw@),
            line_views(out@) == lines_of(all.take(i as int)),
        decreases raw.len() - i,
    {
        let ghost before = out@;
        proof {
            assert(all.take(i + 1).drop_last() =~= all.take(i as int));
            assert(all.take(i + 1).last() == raw@[i as int]@);
        }
        match parse_line(raw[i].as_str()) {
            Some(l) => {
                out.push(l);
                assert(line_views(out@) =~= line_views(before).push(l@));
            },
            None => {},
        }
        i = i + 1;
    }
    assert(all.take(i as int) =~= all);
    out
}

/// A line whose numbers are read; texts that are no number are left out. Numbers
/// are the bits of 32-bit floats.
#[derive(Debug)]
pub struct NumLine {
    pub kind: LineKind,
    pub name: String,
    pub nums: Vec<u32>,
}

/// A setting for the models whose key holds a name.
#[derive(Debug)]
pub struct Tweak {
    pub name: String,
    pub nums: Vec<u32>,
}

/// What a `Tweak` says.
pub ghost struct TweakSpec {
    pub name: Seq<char>,
    pub nums: Seq<u32>,
}

impl View for Tweak {
    type V = TweakSpec;

    open spec fn view(&self) -> TweakSpec {
        TweakSpec { name: self.name@, nums: self.nums@ }
    }
}

pub open spec fn tweak_views(v: Seq<Tweak>) -> Seq<TweakSpec> {
    v.map_values(|t: Tweak| t@)
}

/// The settings for single models.
pub struct Tweaks {
    pub yaws: Vec<Tweak>,
    pub offsets: Vec<Tweak>,
    pub copies: Vec<Tweak>,
}

/// What `Tweaks` hold.
#[verifier::ext_equal]
pub ghost struct TweaksSpec {
    pub yaws: Seq<TweakSpec>,
    pub offsets: Seq<TweakSpec>,
    pub copies: Seq<TweakSpec>,
}

impl View for Tweaks {
    type V = TweaksSpec;

    open spec fn view(&self) -> TweaksSpec {
        TweaksSpec {
            yaws: tweak_views(self.yaws@),
            offsets: tweak_views(self.offsets@),
            copies: tweak_views(self.copies@),
        }
    }
}

pub open spec fn no_tweaks() -> TweaksSpec {
    TweaksSpec { yaws: Seq::empty(), offsets: Seq::empty(), copies: Seq::empty() }
}

/// The settings for single models after a line: offsets are three numbers, more
/// places three, or four with a turn.
pub open spec fn with_line(t: TweaksSpec, kind: LineKind, name: Seq<char>, nums: Seq<u32>) -> TweaksSpec {
    match kind {
        LineKind::Offset => if nums.len() == 3 {
            TweaksSpec { offsets: t.offsets.push(TweakSpec { name, nums }), ..t }
        } else {
            t
        },
        LineKind::Extra => if nums.len() == 3 {
            TweaksSpec { copies: t.copies.push(TweakSpec { name, nums: nums.push(0) }), ..t }
        } else if nums.len() == 4 {
            TweaksSpec { copies: t.copies.push(TweakSpec { name, nums }), ..t }
        } else {
            t
        },
        LineKind::Value => if nums.len() > 0 && has_prefix(name, "yaw:"@) {
            TweaksSpec {
                yaws: t.yaws.push(TweakSpec { name: trimmed(name.skip(4)), nums: seq![nums[0]] }),
                ..t
            }
        } else {
            t
        },
    }
}

/// The settings for single models after some lines.
pub open spec fn tweaks_of(s: Seq<NumLine>) -> TweaksSpec
    decreases s.len(),
{
    if s.len() == 0 {
        no_tweaks()
    } else {
        with_line(tweaks_of(s.drop_last()), s.last().kind, s.last().name@, s.last().nums@)
    }
}

/// The settings with one of them set: the one with a name in upper case.
pub open spec fn with_knob(knobs: Seq<u32>, names: Seq<&'static str>, upper: Seq<char>, num: u32) -> Seq<u32> {
    Seq::new(
        knobs.len(),
        |i: int|
            if i < names.len() && names[i]@ == upper {
                num
            } else {
                knobs[i]
            },
    )
}

/// The settings after some lines.
pub open spec fn knobs_of(knobs: Seq<u32>, names: Seq<&'static str>, s: Seq<NumLine>) -> Seq<u32>
    decreases s.len(),
{
    if s.len() == 0 {
        knobs
    } else {
        let before = knobs_of(knobs, names, s.drop_last());
        let l = s.last();
        if l.kind == LineKind::Value && l.nums@.len() > 0 && !has_prefix(l.name@, "yaw:"@) {
            with_knob(before, names, uppercase(l.name@), l.nums@[0])
        } else {
            before
        }
    }
}

/// Sets the setting with a name in upper case; one that there is not changes
/// nothing.
pub fn set_knob(knobs: &mut Vec<u32>, names: &Vec<&'static str>, upper: &str, num: u32)
    ensures
        final(knobs)@ == with_knob(old(knobs)@, names@, upper@, num),
{
    let ghost start = knobs@;
    let mut i: usize = 0;
    while i < knobs.len() && i < names.len()
        invariant
            i <= knobs@.len(),
            i <= names@.len(),
            knobs@.len() == start.len(),
            forall|j: int|
                0 <= j < knobs@.len() ==> #[trigger] knobs@[j] == if j < i && names@[j]@ == upper@ {
                    num
                } else {
                    start[j]
                },
        decreases knobs.len() - i,
    {
        if str_eq(names[i], upper) {
            knobs.set(i, num);
        }
        i = i + 1;
    }
    assert(knobs@ =~= with_knob(start, names@, upper@, num));
}

/// The bits are those of no number.
pub open spec fn is_nan(b: u32) -> bool {
    0x7F80_0000 < b < 0x8000_0000 || b > 0xFF80_0000
}

/// Two 32-bit floats are equal, by their bits.
pub open spec fn float_eq(a: u32, b: u32) -> bool {
    &&& !is_nan(a)
    &&& !is_nan(b)
    &&& a == b || ((a == 0 || a == 0x8000_0000) && (b == 0 || b == 0x8000_0000))
}

fn floats_equal(a: u32, b: u32) -> (r: bool)
    ensures
        r == float_eq(a, b),
{
    let nan_a: bool = (0x7F80_0000 < a && a < 0x8000_0000) || a > 0xFF80_0000;
    let nan_b: bool = (0x7F80_0000 < b && b < 0x8000_0000) || b > 0xFF80_0000;
    !nan_a && !nan_b && (a == b || ((a == 0 || a == 0x8000_0000) && (b == 0 || b == 0x8000_0000)))
}

/// Two rows of settings are equal.
pub open spec fn same_tweaks(a: Seq<TweakSpec>, b: Seq<TweakSpec>) -> bool {
    &&& a.len() == b.len()
    &&& forall|i: int| 0 <= i < a.len() ==> same_tweak(#[trigger] a[i], b[i])
}

pub open spec fn same_tweak(a: TweakSpec, b: TweakSpec) -> bool {
    &&& a.name == b.name
    &&& a.nums.len() == b.nums.len()
    &&& forall|i: int| 0 <= i < a.nums.len() ==> float_eq(#[trigger] a.nums[i], b.nums[i])
}

fn tweak_equal(a: &Tweak, b: &Tweak) -> (r: bool)
    ensures
        r == same_tweak(a@, b@),
{
    if !str_eq(a.name.as_str(), b.name.as_str()) || a.nums.len() != b.nums.len() {
        return false;
    }
    let mut i: usize = 0;
    while i < a.nums.len()
        invariant
            i <= a.nums.len(),
            a.nums.len() == b.nums.len(),
            forall|j: int| 0 <= j < i ==> float_eq(#[trigger] a.nums@[j], b.nums@[j]),
        decreases a.nums.len() - i,
    {
        if !floats_equal(a.nums[i], b.nums[i]) {
            assert(!float_eq(a@.nums[i as int], b@.nums[i as int]));
            return false;
        }
        i = i + 1;
    }
    true
}

fn tweaks_equal(a: &Vec<Tweak>, b: &Vec<Tweak>) -> (r: bool)
    ensures
        r == same_tweaks(tweak_views(a@), tweak_views(b@)),
{
    if a.len() != b.len() {
        return false;
    }
    let ghost x = tweak_views(a@);
    let ghost y = tweak_views(b@);
    let mut i: usize = 0;
    while i < a.len()
        invariant
            i <= a.len(),
            a.len() == b.len(),
            x == tweak_views(a@),
            y == tweak_views(b@),
            forall|j: int| 0 <= j < i ==> same_tweak(#[trigger] x[j], y[j]),
        decreases a.len() - i,
    {
        if !tweak_equal(&a[i], &b[i]) {
            assert(!same_tweak(x[i as int], y[i as int]));
            return false;
        }
        i = i + 1;
    }
    true
}

/// All settings.
pub struct Tuning {
    /// The settings by their number, as the bits of 32-bit floats.
    pub knobs: Vec<u32>,
    pub tweaks: Tweaks,
    /// Changes whenever the settings for single models change.
    pub generation: u64,
    pub last_poll: u64,
    pub wrote_template: bool,
}

/// The settings for single models are not what they were.
pub open spec fn changed(a: TweaksSpec, b: TweaksSpec) -> bool {
    !same_tweaks(a.yaws, b.yaws) || !same_tweaks(a.offsets, b.offsets) || !same_tweaks(
        a.copies,
        b.copies,
    )
}

/// Settings with their defaults.
pub fn init(defaults: Vec<u32>) -> (r: Tuning)
    ensures
        r.knobs@ == defaults@,
        r.tweaks@ == no_tweaks(),
        r.generation == 0,
        r.last_poll == 0,
        !r.wrote_template,
{
    let r = Tuning {
        knobs: defaults,
        tweaks: Tweaks { yaws: Vec::new(), offsets: Vec::new(), copies: Vec::new() },
        generation: 0,
        last_poll: 0,
        wrote_template: false,
    };
    assert(r.tweaks@ =~= no_tweaks());
    r
}

/// The frames after which the file is read again.
pub const POLL_FRAMES: u64 = 60;

/// Whether the file is read: at the start, which the last frame of all stands
/// for, and then now and then.
pub fn poll(t: &mut Tuning, frame: u64) -> (r: bool)
    ensures
        r == (frame == u64::MAX || frame >= old(t).last_poll + POLL_FRAMES),
        final(t).last_poll == if !r {
            old(t).last_poll
        } else if frame == u64::MAX {
            0
        } else {
            frame
        },
        final(t).knobs == old(t).knobs,
        final(t).tweaks == old(t).tweaks,
        final(t).generation == old(t).generation,
        final(t).wrote_template == old(t).wrote_template,
{
    let last: u64 = t.last_poll;
    if frame != u64::MAX && (frame < last || frame - last < POLL_FRAMES) {
        return false;
    }
    t.last_poll = if frame == u64::MAX {
        0
    } else {
        frame
    };
    true
}

fn push_tweak(v: &mut Vec<Tweak>, name: String, nums: Vec<u32>)
    ensures
        tweak_views(final(v)@) == tweak_views(old(v)@).push(TweakSpec { name: name@, nums: nums@ }),
{
    let ghost t = TweakSpec { name: name@, nums: nums@ };
    v.push(Tweak { name, nums });
    assert(tweak_views(v@) =~= tweak_views(old(v)@).push(t));
}

fn copy_nums(v: &Vec<u32>) -> (r: Vec<u32>)
    ensures
        r@ == v@,
{
    let mut out: Vec<u32> = Vec::new();
    let mut i: usize = 0;
    while i < v.len()
        invariant
            i <= v.len(),
            out@ == v@.take(i as int),
        decreases v.len() - i,
    {
        out.push(v[i]);
        assert(v@.take(i + 1) =~= v@.take(i as int).push(v@[i as int]));
        i = i + 1;
    }
    assert(v@.take(i as int) =~= v@);
    out
}

fn add_line(t: &mut Tweaks, l: &NumLine)
    ensures
        final(t)@ == with_line(old(t)@, l.kind, l.name@, l.nums@),
{
    proof {
        reveal_strlit("yaw:");
    }
    match l.kind {
        LineKind::Offset => {
            if l.nums.len() == 3 {
                push_tweak(&mut t.offsets, l.name.clone(), copy_nums(&l.nums));
            }
        },
        LineKind::Extra => {
            if l.nums.len() == 3 || l.nums.len() == 4 {
                let mut nums: Vec<u32> = copy_nums(&l.nums);
                if nums.len() == 3 {
                    nums.push(0);
                }
                push_tweak(&mut t.copies, l.name.clone(), nums);
            }
        },
        LineKind::Value => {
            if l.nums.len() > 0 {
                match rest(l.name.as_str(), "yaw:") {
                    Some(name) => {
                        let mut nums: Vec<u32> = Vec::new();
                        nums.push(l.nums[0]);
                        assert(nums@ =~= seq![l.nums@[0]]);
                        push_tweak(&mut t.yaws, name, nums);
                    },
                    None => {},
                }
            }
        },
    }
    assert(t@ =~= with_line(old(t)@, l.kind, l.name@, l.nums@));
}

/// Takes over what a file says. The settings for single models are replaced;
/// single numbers that the file does not set stay.
pub fn apply_lines(t: &mut Tuning, names: &Vec<&'static str>, lines: &Vec<NumLine>)
    ensures
        final(t).tweaks@ == tweaks_of(lines@),
        final(t).knobs@ == knobs_of(old(t).knobs@, names@, lines@),
        final(t).generation as int == if changed(old(t).tweaks@, tweaks_of(lines@)) {
            (old(t).generation + 1) % 0x1_0000_0000_0000_0000
        } else {
            old(t).generation as int
        },
        final(t).last_poll == old(t).last_poll,
        final(t).wrote_template == old(t).wrote_template,
{
    let mut fresh: Tweaks = Tweaks { yaws: Vec::new(), offsets: Vec::new(), copies: Vec::new() };
    let mut i: usize = 0;
    let ghost start = t.knobs@;
    assert(fresh@ =~= tweaks_of(lines@.take(0)));
    while i < lines.len()
        invariant
            i <= lines.len(),
            t.tweaks == old(t).tweaks,
            t.generation == old(t).generation,
            t.last_poll == old(t).last_poll,
            t.wrote_template == old(t).wrote_template,
            fresh@ == tweaks_of(lines@.take(i as int)),
            t.knobs@ == knobs_of(start, names@, lines@.take(i as int)),
        decreases lines.len() - i,
    {
        assert(lines@.take(i + 1).drop_last() =~= lines@.take(i as int));
        let l: &NumLine = &lines[i];
        add_line(&mut fresh, l);
        if l.kind == LineKind::Value && l.nums.len() > 0 && !starts_with(l.name.as_str(), "yaw:") {
            let upper: String = to_uppercase(l.name.as_str());
            set_knob(&mut t.knobs, names, upper.as_str(), l.nums[0]);
        }
        i = i + 1;
    }
    assert(lines@.take(i as int) =~= lines@);
    let same: bool = tweaks_equal(&t.tweaks.yaws, &fresh.yaws) && tweaks_equal(
        &t.tweaks.offsets,
        &fresh.offsets,
    ) && tweaks_equal(&t.tweaks.copies, &fresh.copies);
    t.tweaks = fresh;
    if !same {
        t.generation = t.generation.wrapping_add(1);
    }
}

/// The settings of the models whose key holds their name, in their order.
pub open spec fn tweaks_for(s: Seq<TweakSpec>, key: Seq<char>) -> Seq<Seq<u32>>
    decreases s.len(),
{
    if s.len() == 0 {
        Seq::empty()
    } else if has_text(key, s.last().name) {
        tweaks_for(s.drop_last(), key).push(s.last().nums)
    } else {
        tweaks_for(s.drop_last(), key)
    }
}

pub open spec fn rows(v: Seq<Vec<u32>>) -> Seq<Seq<u32>> {
    v.map_values(|r: Vec<u32>| r@)
}

/// The settings of a row that are for a model.
pub fn model_tweaks(list: &Vec<Tweak>, key: &str) -> (r: Vec<Vec<u32>>)
    ensures
        rows(r@) == tweaks_for(tweak_views(list@), key@),
{
    let ghost all = tweak_views(list@);
    let mut out: Vec<Vec<u32>> = Vec::new();
    let mut i: usize = 0;
    assert(rows(out@) =~= tweaks_for(all.take(0), key@));
    while i < list.len()
        invariant
            i <= list.len(),
            all == tweak_views(list@),
            rows(out@) == tweaks_for(all.take(i as int), key@),
        decreases list.len() - i,
    {
        let ghost before = out@;
        proof {
            assert(all.take(i + 1).drop_last() =~= all.take(i as int));
            assert(all.take(i + 1).last() == list@[i as int]@);
        }
        if contains(key, list[i].name.as_str()) {
            let nums: Vec<u32> = copy_nums(&list[i].nums);
            let ghost n = nums@;
            out.push(nums);
            assert(rows(out@) =~= rows(before).push(n));
        }
        i = i + 1;
    }
    assert(all.take(i as int) =~= all);
    out
}

/// What was worked out for models, as long as the settings do not change.
pub struct TweakCache<V> {
    pub generation: u64,
    pub known: HashMap<u64, V>,
}

/// What is still known under the settings of a generation.
pub open spec fn known_of<V>(cache: TweakCache<V>, generation: u64) -> Map<u64, V> {
    if cache.generation == generation {
        cache.known@
    } else {
        Map::empty()
    }
}

/// Looks a model up. What was worked out before the settings changed is given
/// up.
pub fn tweak_memo<V: Copy, F: FnOnce() -> V>(
    cache: &mut TweakCache<V>,
    generation: u64,
    key: u64,
    compute: F,
) -> (r: V)
    requires
        !known_of(*old(cache), generation).contains_key(key) ==> compute.requires(()),
    ensures
        final(cache).generation == generation,
        looked_up(
            known_of(*old(cache), generation),
            key,
            |v: V| compute.ensures((), v),
            r,
            final(cache).known@,
        ),
{
    if cache.generation != generation {
        cache.generation = generation;
        cache.known.clear();
    }
    memo(&mut cache.known, key, compute)
}

/// The first lines of a new file.
pub open spec fn template_head() -> Seq<char> {
    "# live yaw tuning (degrees), re-read every second\n"@
        + "# per-model override: yaw:oil-refinery=180 (substring match)\n"@
        + "# per-model offset: off:oil-refinery=dx,dy,dz (tiles)\n"@
        + "# extra part placement: copy:centrifuge/animated1=dx,dy,dz[,yawdeg]\n"@
}

/// A new file, with the first `n` settings.
pub open spec fn template_of(names: Seq<&'static str>, defaults: Seq<String>, n: int) -> Seq<char>
    decreases n,
{
    if n <= 0 {
        template_head()
    } else {
        template_of(names, defaults, n - 1) + lowercase(names[n - 1]@) + "="@ + defaults[n - 1]@
            + "\n"@
    }
}

/// A new file with all settings and their defaults, which can then be edited. It
/// is written once.
pub fn template(t: &mut Tuning, names: &Vec<&'static str>, defaults: &Vec<String>) -> (r: Option<String>)
    requires
        names@.len() == defaults@.len(),
    ensures
        final(t).knobs == old(t).knobs,
        final(t).tweaks == old(t).tweaks,
        final(t).generation == old(t).generation,
        final(t).last_poll == old(t).last_poll,
        final(t).wrote_template,
        r is Some <==> !old(t).wrote_template,
        r matches Some(s) ==> s@ == template_of(names@, defaults@, names@.len() as int),
{
    if t.wrote_template {
        return None;
    }
    t.wrote_template = true;
    let a: String = join2(
        "# live yaw tuning (degrees), re-read every second\n",
        "# per-model override: yaw:oil-refinery=180 (substring match)\n",
    );
    let b: String = join2(a.as_str(), "# per-model offset: off:oil-refinery=dx,dy,dz (tiles)\n");
    let mut text: String = join2(
        b.as_str(),
        "# extra part placement: copy:centrifuge/animated1=dx,dy,dz[,yawdeg]\n",
    );
    let mut i: usize = 0;
    while i < names.len()
        invariant
            i <= names.len(),
            names@.len() == defaults@.len(),
            text@ == template_of(names@, defaults@, i as int),
        decreases names.len() - i,
    {
        let name: String = to_lowercase(names[i]);
        text = join2(text.as_str(), name.as_str());
        text = join2(text.as_str(), "=");
        text = join2(text.as_str(), defaults[i].as_str());
        text = join2(text.as_str(), "\n");
        i = i + 1;
    }
    Some(text)
}

/// The same file twice changes nothing more, unless a number of it is none.
pub proof fn lemma_same_file(a: TweaksSpec)
    requires
        forall|i: int, j: int|
            0 <= i < a.yaws.len() && 0 <= j < a.yaws[i].nums.len() ==> !is_nan(
                #[trigger] a.yaws[i].nums[j],
            ),
        forall|i: int, j: int|
            0 <= i < a.offsets.len() && 0 <= j < a.offsets[i].nums.len() ==> !is_nan(
                #[trigger] a.offsets[i].nums[j],
            ),
        forall|i: int, j: int|
            0 <= i < a.copies.len() && 0 <= j < a.copies[i].nums.len() ==> !is_nan(
                #[trigger] a.copies[i].nums[j],
            ),
    ensures
        !changed(a, a),
{
}

/// What a line says. Without an equals sign, empty or behind a hash it says nothing.
/// Otherwise what stands before the first equals sign names it and what stands behind it
/// is its value, both without the white space around them. `off:` and `copy:` place the
/// models that they name, by the numbers between commas.
pub proof fn lemma_lines(raw: &str, r: Option<Line>, a: Seq<char>, b: Seq<char>)
    requires
        call_ensures(parse_line, (raw,), r),
        !a.contains('='),
        trimmed(raw@) == a + seq!['='] + b,
    ensures
        ({
            let k = trimmed(a);
            let v = trimmed(b);
            let comment = trimmed(raw@)[0] == '#';
            let off = has_prefix(k, "off:"@);
            let copy = has_prefix(k, "copy:"@);
            &&& r is None <==> comment
            &&& r matches Some(l) ==> {
                &&& off ==> l.kind == LineKind::Offset && l.name@ == trimmed(k.skip(4))
                &&& !off && copy ==> l.kind == LineKind::Extra && l.name@ == trimmed(k.skip(5))
                &&& off || copy ==> l.values@.len() == split_on(v, ',').len() && forall|i: int|
                    0 <= i < l.values@.len() ==> (#[trigger] l.values@[i])@ == trimmed(split_on(v, ',')[i])
                &&& !off && !copy ==> l.kind == LineKind::Value && l.name@ == k && l.values@.len() == 1
                    && l.values@[0]@ == v
            }
        }),
{
    let t = trimmed(raw@);
    crate::split::lemma_first_at(a, '=', b);
    assert(t.take(a.len() as int) =~= a);
    assert(t.skip((a.len() + 1) as int) =~= b);
    if r is Some {
        let l = r->0;
        let w = views(l.values@);
        assert(w.len() == l.values@.len());
        assert forall|i: int| 0 <= i < l.values@.len() implies (#[trigger] l.values@[i])@ == w[i] by {}
    }
}

/// A line that is empty, or has no equals sign, says nothing.
pub proof fn lemma_silent_lines(raw: &str, r: Option<Line>)
    requires
        call_ensures(parse_line, (raw,), r),
        !trimmed(raw@).contains('='),
    ensures
        r is None,
{
    crate::split::lemma_not_there(trimmed(raw@), '=');
}

/// What a line adds to the settings of single models: an offset of three numbers, one
/// more place of three or of four, a turn by the first number. A line with another
/// number of numbers adds nothing.
pub proof fn lemma_what_a_line_sets(t: TweaksSpec, kind: LineKind, name: Seq<char>, nums: Seq<u32>)
    ensures
        ({
            let r = with_line(t, kind, name, nums);
            let n = nums.len();
            let yaw = kind == LineKind::Value && n > 0 && has_prefix(name, "yaw:"@);
            &&& kind == LineKind::Offset && n == 3 ==> r.offsets == t.offsets.push(TweakSpec { name, nums })
            &&& kind != LineKind::Offset || n != 3 ==> r.offsets == t.offsets
            &&& kind == LineKind::Extra && n == 4 ==> r.copies == t.copies.push(TweakSpec { name, nums })
            &&& kind == LineKind::Extra && n == 3 ==> r.copies.len() == t.copies.len() + 1 && r.copies.last().name == name
                && r.copies.last().nums == seq![nums[0], nums[1], nums[2], 0u32]
            &&& kind != LineKind::Extra || (n != 3 && n != 4) ==> r.copies == t.copies
            &&& yaw ==> r.yaws == t.yaws.push(TweakSpec { name: trimmed(name.skip(4)), nums: seq![nums[0]] })
            &&& !yaw ==> r.yaws == t.yaws
        }),
{
    if kind == LineKind::Extra && nums.len() == 3 {
        assert(nums.push(0) =~= seq![nums[0], nums[1], nums[2], 0u32]);
    }
}

/// A line sets the setting whose name it gives, whatever the case of its letters, and
/// leaves the others; the last line that sets one decides.
pub proof fn lemma_last_line_decides(knobs: Seq<u32>, names: Seq<&'static str>, s: Seq<NumLine>, l: NumLine, i: int)
    requires
        0 <= i < knobs.len(),
        knobs.len() == names.len(),
    ensures
        knobs_of(knobs, names, s).len() == knobs.len(),
        ({
            let after = knobs_of(knobs, names, s.push(l));
            let sets = l.kind == LineKind::Value && l.nums@.len() > 0 && !has_prefix(l.name@, "yaw:"@) && names[i]@
                == uppercase(l.name@);
            &&& sets ==> after[i] == l.nums@[0]
            &&& !sets ==> after[i] == knobs_of(knobs, names, s)[i]
        }),
        knobs_of(knobs, names, Seq::empty()) == knobs,
    decreases s.len(),
{
    assert(s.push(l).drop_last() =~= s);
    if s.len() > 0 {
        lemma_last_line_decides(knobs, names, s.drop_last(), s.last(), i);
        assert(s.drop_last().push(s.last()) =~= s);
    }
    let before = knobs_of(knobs, names, s);
    let after = knobs_of(knobs, names, s.push(l));
    assert(s.push(l).last() == l);
    assert(before.len() == knobs.len());
    if l.kind == LineKind::Value && l.nums@.len() > 0 && !has_prefix(l.name@, "yaw:"@) {
        assert(after == with_knob(before, names, uppercase(l.name@), l.nums@[0]));
        assert(i < before.len());
    } else {
        assert(after == before);
    }
}

/// The settings of a model are those whose name its key holds, in their order.
pub proof fn lemma_settings_of_a_model(a: Seq<TweakSpec>, b: Seq<TweakSpec>, t: TweakSpec, key: Seq<char>)
    ensures
        has_text(key, t.name) ==> tweaks_for(seq![t], key) == seq![t.nums],
        !has_text(key, t.name) ==> tweaks_for(seq![t], key).len() == 0,
        tweaks_for(a + b, key) == tweaks_for(a, key) + tweaks_for(b, key),
    decreases b.len(),
{
    assert(seq![t].drop_last() =~= Seq::<TweakSpec>::empty());
    assert(tweaks_for(Seq::<TweakSpec>::empty(), key) =~= Seq::<Seq<u32>>::empty());
    if has_text(key, t.name) {
        assert(tweaks_for(seq![t], key) =~= seq![t.nums]);
    }
    if b.len() > 0 {
        lemma_settings_of_a_model(a, b.drop_last(), t, key);
        assert((a + b).drop_last() =~= a + b.drop_last());
        assert((a + b).last() == b.last());
        assert(tweaks_for(a + b, key) =~= tweaks_for(a, key) + tweaks_for(b, key));
    } else {
        assert(a + b =~= a);
        assert(tweaks_for(a, key) + tweaks_for(b, key) =~= tweaks_for(a, key));
    }
}

/// The lines of a file are read one after the other.
pub proof fn lemma_file_line_by_line(a: Seq<Seq<char>>, b: Seq<Seq<char>>, raw: Seq<char>)
    ensures
        lines_of(a + b) == lines_of(a) + lines_of(b),
        line_of(raw) matches Some(l) ==> lines_of(seq![raw]) == seq![l],
        line_of(raw) is None ==> lines_of(seq![raw]).len() == 0,
    decreases b.len(),
{
    assert(seq![raw].drop_last() =~= Seq::<Seq<char>>::empty());
    assert(lines_of(Seq::<Seq<char>>::empty()) =~= Seq::<LineSpec>::empty());
    if line_of(raw) is Some {
        assert(lines_of(seq![raw]) =~= seq![line_of(raw)->0]);
    }
    if b.len() > 0 {
        lemma_file_line_by_line(a, b.drop_last(), raw);
        assert((a + b).drop_last() =~= a + b.drop_last());
        assert((a + b).last() == b.last());
        assert(lines_of(a + b) =~= lines_of(a) + lines_of(b));
    } else {
        assert(a + b =~= a);
        assert(lines_of(a) + lines_of(b) =~= lines_of(a));
    }
}

/// Two numbers are the same where their bits are, or both are zero, but for what is no
/// number, which is never the same.
pub proof fn lemma_same_numbers(a: u32, b: u32)
    ensures
        float_eq(a, b) == float_eq(b, a),
        a <= 0x7F80_0000 ==> float_eq(a, a),
        0x7F80_0000 < a < 0x8000_0000 || a > 0xFF80_0000 ==> !float_eq(a, b),
        float_eq(0, 0x8000_0000),
        a != b && a != 0 && a != 0x8000_0000 ==> !float_eq(a, b),
{
}

/// A new file names every setting in lower case, with its default, one to a line, behind
/// the lines that explain it.
pub proof fn lemma_new_file(names: Seq<&'static str>, defaults: Seq<String>, n: int)
    requires
        0 <= n,
    ensures
        template_of(names, defaults, n + 1) == template_of(names, defaults, n) + lowercase(names[n]@) + "="@
            + defaults[n]@ + "\n"@,
        has_prefix(template_of(names, defaults, n), template_of(names, defaults, 0)),
    decreases n,
{
    let t = template_of(names, defaults, n);
    if n > 0 {
        lemma_new_file(names, defaults, n - 1);
        let b = template_of(names, defaults, n - 1);
        let h = template_of(names, defaults, 0);
        assert(t.subrange(0, h.len() as int) =~= b.subrange(0, h.len() as int));
    } else {
        assert(t.subrange(0, t.len() as int) =~= t);
    }
}

} // verus!
