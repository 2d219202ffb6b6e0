//! Small shared helpers: the hasher of the per-frame maps, a float cell, and
//! lookups that remember their answers.

use std::collections::HashMap;
use vstd::prelude::*;

verus! {

/// The multiplier of the hash.
pub const FX_SEED: u64 = 0x517c_c1b7_2722_0a95;

/// The hash with another word mixed in.
pub open spec fn fx_mix(hash: u64, word: u64) -> u64 {
    ((((hash << 5) | (hash >> 59)) ^ word) as int * FX_SEED as int % 0x1_0000_0000_0000_0000) as u64
}

/// The number that bytes stand for, the lowest first.
pub open spec fn le_value(b: Seq<u8>) -> nat
    decreases b.len(),
{
    if b.len() == 0 {
        0
    } else {
        b[0] as nat + 256 * le_value(b.drop_first())
    }
}

/// 256 to the power of `n`.
pub open spec fn bytes_range(n: nat) -> nat
    decreases n,
{
    if n == 0 {
        1
    } else {
        256 * bytes_range((n - 1) as nat)
    }
}

pub proof fn lemma_le_value_bound(b: Seq<u8>)
    ensures
        le_value(b) < bytes_range(b.len()),
    decreases b.len(),
{
    if b.len() > 0 {
        lemma_le_value_bound(b.drop_first());
    }
}

pub proof fn lemma_eight_bytes()
    ensures
        bytes_range(8) == 0x1_0000_0000_0000_0000,
        bytes_range(4) == 0x1_0000_0000,
        bytes_range(2) == 0x1_0000,
        bytes_range(1) == 0x100,
{
    reveal_with_fuel(bytes_range, 9);
}

proof fn lemma_range_grows(a: nat, b: nat)
    requires
        a <= b,
    ensures
        bytes_range(a) <= bytes_range(b),
    decreases b - a,
{
    if a < b {
        lemma_range_grows(a, (b - 1) as nat);
    }
}

/// The number that up to eight bytes stand for, the lowest first.
pub fn le_u64(b: &Vec<u8>, from: usize, to: usize) -> (r: u64)
    requires
        from <= to <= b.len(),
        to - from <= 8,
    ensures
        r == le_value(b@.subrange(from as int, to as int)),
{
    let ghost s = b@.subrange(from as int, to as int);
    let mut v: u64 = 0;
    let mut k: usize = to;
    assert(s.skip(to - from) =~= Seq::<u8>::empty());
    while k > from
        invariant
            from <= k <= to <= b.len(),
            to - from <= 8,
            s == b@.subrange(from as int, to as int),
            v == le_value(s.skip(k - from)),
        decreases k,
    {
        k = k - 1;
        proof {
            let t = s.skip(k - from);
            assert(t.drop_first() =~= s.skip(k - from + 1));
            lemma_le_value_bound(t);
            lemma_range_grows(t.len(), 8);
            lemma_eight_bytes();
            assert(t[0] == b@[k as int]);
        }
        v = v * 256 + (b[k] as u64);
    }
    assert(s.skip(0) =~= s);
    v
}

/// What remains after a text of bytes has been mixed in: eight bytes at a time,
/// and the rest as if zeros followed it.
pub open spec fn fx_write(hash: u64, b: Seq<u8>) -> u64
    decreases b.len(),
{
    if b.len() == 0 {
        hash
    } else if b.len() < 8 {
        fx_mix(hash, le_value(b) as u64)
    } else {
        fx_write(fx_mix(hash, le_value(b.take(8)) as u64), b.skip(8))
    }
}

/// A fast hasher for the short keys of the per-frame maps. It does not resist
/// chosen keys.
#[derive(Clone, Copy, Debug)]
pub struct FxHasher {
    hash: u64,
}

impl FxHasher {
    /// What has been hashed so far.
    pub closed spec fn state(&self) -> u64 {
        self.hash
    }

    pub fn new() -> (h: FxHasher)
        ensures
            h.state() == 0,
    {
        FxHasher { hash: 0 }
    }

    fn mix(&mut self, word: u64)
        ensures
            final(self).state() == fx_mix(old(self).state(), word),
    {
        let turned: u64 = (self.hash << 5) | (self.hash >> 59);
        self.hash = (turned ^ word).wrapping_mul(FX_SEED);
    }

    pub fn write(&mut self, bytes: &Vec<u8>)
        ensures
            final(self).state() == fx_write(old(self).state(), bytes@),
    {
        let ghost start = self.hash;
        let mut i: usize = 0;
        assert(bytes@.skip(0) =~= bytes@);
        while bytes.len() - i >= 8
            invariant
                i <= bytes.len(),
                fx_write(start, bytes@) == fx_write(self.hash, bytes@.skip(i as int)),
            decreases bytes.len() - i,
        {
            let ghost rest = bytes@.skip(i as int);
            assert(rest.take(8) =~= bytes@.subrange(i as int, i + 8));
            assert(rest.skip(8) =~= bytes@.skip(i + 8));
            let word: u64 = le_u64(bytes, i, i + 8);
            self.mix(word);
            i = i + 8;
        }
        if i < bytes.len() {
            assert(bytes@.skip(i as int) =~= bytes@.subrange(i as int, bytes@.len() as int));
            let word: u64 = le_u64(bytes, i, bytes.len());
            self.mix(word);
        }
    }

    pub fn write_u8(&mut self, v: u8)
        ensures
            final(self).state() == fx_mix(old(self).state(), v as u64),
    {
        self.mix(v as u64);
    }

    pub fn write_u32(&mut self, v: u32)
        ensures
            final(self).state() == fx_mix(old(self).state(), v as u64),
    {
        self.mix(v as u64);
    }

    pub fn write_u64(&mut self, v: u64)
        ensures
            final(self).state() == fx_mix(old(self).state(), v),
    {
        self.mix(v);
    }

    pub fn write_usize(&mut self, v: usize)
        ensures
            final(self).state() == fx_mix(old(self).state(), v as u64),
    {
        self.mix(v as u64);
    }

    pub fn finish(&self) -> (r: u64)
        ensures
            r == self.state(),
    {
        self.hash
    }
}

/// Hashing bytes in two goes is the same as hashing them at once, where the
/// first go is whole words.
pub proof fn lemma_fx_write_splits(hash: u64, a: Seq<u8>, b: Seq<u8>)
    requires
        a.len() % 8 == 0,
    ensures
        fx_write(hash, a + b) == fx_write(fx_write(hash, a), b),
    decreases a.len(),
{
    if a.len() == 0 {
        assert(a + b =~= b);
    } else {
        assert((a + b).take(8) =~= a.take(8));
        assert((a + b).skip(8) =~= a.skip(8) + b);
        lemma_fx_write_splits(fx_mix(hash, le_value(a.take(8)) as u64), a.skip(8), b);
    }
}

/// A float that is kept as its bits.
#[derive(Clone, Copy, PartialEq, Eq, Structural, Debug)]
pub struct AtomicF32 {
    bits: u32,
}

impl AtomicF32 {
    pub closed spec fn value(&self) -> u32 {
        self.bits
    }

    pub fn new(bits: u32) -> (r: AtomicF32)
        ensures
            r.value() == bits,
    {
        AtomicF32 { bits }
    }

    pub fn get(&self) -> (r: u32)
        ensures
            r == self.value(),
    {
        self.bits
    }

    pub fn set(&mut self, bits: u32)
        ensures
            final(self).value() == bits,
    {
        self.bits = bits;
    }
}

/// What a lookup gives and leaves behind: a key that is known keeps its value, and
/// another takes one that `computed` allows.
pub open spec fn looked_up<V>(
    before: Map<u64, V>,
    key: u64,
    computed: spec_fn(V) -> bool,
    r: V,
    after: Map<u64, V>,
) -> bool {
    if before.contains_key(key) {
        r == before[key] && after == before
    } else {
        computed(r) && after == before.insert(key, r)
    }
}

/// Looks a key up. Where it is not known yet, the value is computed and kept. The
/// computation need not be ready to run for a key that is known: it does not run
/// then.
pub fn memo<V: Copy, F: FnOnce() -> V>(cache: &mut HashMap<u64, V>, key: u64, compute: F) -> (r: V)
    requires
        !old(cache)@.contains_key(key) ==> compute.requires(()),
    ensures
        looked_up(old(cache)@, key, |v: V| compute.ensures((), v), r, final(cache)@),
{
    broadcast use vstd::std_specs::hash::group_hash_axioms;

    match cache.get(&key) {
        Some(v) => {
            return *v;
        },
        None => {},
    }
    let v: V = compute();
    cache.insert(key, v);
    v
}

/// The second lookup of a key gives what the first one gave and changes nothing,
/// whatever the second computation would have allowed; other keys keep their
/// values.
pub proof fn lemma_looked_up_once<V>(
    before: Map<u64, V>,
    key: u64,
    first: spec_fn(V) -> bool,
    r: V,
    mid: Map<u64, V>,
    second: spec_fn(V) -> bool,
    again: V,
    after: Map<u64, V>,
)
    requires
        looked_up(before, key, first, r, mid),
        looked_up(mid, key, second, again, after),
    ensures
        mid.contains_key(key),
        again == r,
        after == mid,
        forall|k: u64| k != key ==> (#[trigger] mid.contains_key(k) <==> before.contains_key(k)),
        forall|k: u64| k != key && #[trigger] before.contains_key(k) ==> mid[k] == before[k],
{
}

/// The lowest byte comes first: a single byte is its own value, and what follows other
/// bytes counts 256 times more for each of them.
pub proof fn lemma_lowest_byte_first(a: Seq<u8>, b: Seq<u8>, x: u8)
    ensures
        le_value(seq![x]) == x,
        le_value(a + b) == le_value(a) + bytes_range(a.len()) * le_value(b),
    decreases a.len(),
{
    assert(seq![x].drop_first() =~= Seq::<u8>::empty());
    assert(le_value(Seq::<u8>::empty()) == 0);
    if a.len() > 0 {
        lemma_lowest_byte_first(a.drop_first(), b, x);
        assert((a + b).drop_first() =~= a.drop_first() + b);
        let r = bytes_range(a.drop_first().len());
        let v = le_value(b);
        let w = le_value(a.drop_first());
        assert(256 * (w + r * v) == 256 * w + (256 * r) * v) by (nonlinear_arith);
    } else {
        assert(a + b =~= b);
        assert(1 * le_value(b) == le_value(b));
    }
}

/// A word is mixed in by turning the hash left by five bits, taking both bit by bit, and
/// multiplying.
pub proof fn lemma_mixing(word: u64)
    ensures
        fx_mix(0, word) as int == (word as int * 0x517c_c1b7_2722_0a95) % 0x1_0000_0000_0000_0000,
        fx_mix(1, 0) as int == (32 * 0x517c_c1b7_2722_0a95) % 0x1_0000_0000_0000_0000,
        fx_mix(0x8000_0000_0000_0000, 0) as int == (16 * 0x517c_c1b7_2722_0a95) % 0x1_0000_0000_0000_0000,
{
    assert((((0u64 << 5) | (0u64 >> 59)) ^ word) == word) by (bit_vector);
    assert((((1u64 << 5) | (1u64 >> 59)) ^ 0u64) == 32) by (bit_vector);
    assert((((0x8000_0000_0000_0000u64 << 5) | (0x8000_0000_0000_0000u64 >> 59)) ^ 0u64) == 16) by (bit_vector);
}

} // verus!
