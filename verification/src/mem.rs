//! Reading of the game's memory. What is known of it is a list of regions with
//! their contents; nothing is read before it is known to be readable.

use crate::util::{le_u64, le_value};
use vstd::prelude::*;
use vstd::string::*;

verus! {

/// A run of pages that share their state and their protection.
#[derive(Debug)]
pub struct Region {
    pub base: u64,
    pub bytes: Vec<u8>,
    pub committed: bool,
    pub protect: u32,
}

/// The game's memory.
#[derive(Debug)]
pub struct Memory {
    pub regions: Vec<Region>,
}

/// The protection bits that allow reading.
pub const READABLE_PROT: u32 = 0xEE;

/// The protection bits of pages that must not be touched.
pub const FORBIDDEN_PROT: u32 = 0x101;

/// Pages with this state and protection can be read.
pub open spec fn page_readable(committed: bool, protect: u32) -> bool {
    committed && protect & FORBIDDEN_PROT == 0 && protect & READABLE_PROT != 0
}

/// Whether pages with this state and protection can be read.
pub fn page_allows_read(committed: bool, protect: u32) -> (r: bool)
    ensures
        r == page_readable(committed, protect),
{
    committed && (protect & FORBIDDEN_PROT) == 0 && (protect & READABLE_PROT) != 0
}

impl Region {
    pub open spec fn end(&self) -> int {
        self.base + self.bytes@.len()
    }

    pub open spec fn covers(&self, a: int) -> bool {
        self.base <= a < self.end()
    }
}

impl Memory {
    /// No address lies in two regions, and addresses fit 64 bits.
    pub open spec fn wf(&self) -> bool {
        &&& forall|i: int| 0 <= i < self.regions@.len() ==> (#[trigger] self.regions@[i]).end() <= u64::MAX
        &&& forall|i: int, j: int, a: int|
            0 <= i < self.regions@.len() && 0 <= j < self.regions@.len() && i != j
                && #[trigger] self.regions@[i].covers(a) ==> !#[trigger] self.regions@[j].covers(a)
    }

    /// The byte at `a` can be read.
    pub open spec fn readable_at(&self, a: int) -> bool {
        exists|i: int|
            0 <= i < self.regions@.len() && (#[trigger] self.regions@[i]).covers(a) && page_readable(
                self.regions@[i].committed,
                self.regions@[i].protect,
            )
    }

    /// The byte at `a`.
    pub open spec fn byte_at(&self, a: int) -> u8 {
        let i = choose|i: int| 0 <= i < self.regions@.len() && (#[trigger] self.regions@[i]).covers(a);
        self.regions@[i].bytes@[a - self.regions@[i].base]
    }

    /// The bytes from `a` on.
    pub open spec fn bytes_at(&self, a: int, len: int) -> Seq<u8> {
        Seq::new(len as nat, |k: int| self.byte_at(a + k))
    }

    /// The address is not null, and all the bytes from there on can be read.
    pub open spec fn can_read(&self, a: int, len: int) -> bool {
        &&& a != 0
        &&& len > 0
        &&& forall|k: int| 0 <= k < len ==> #[trigger] self.readable_at(a + k)
    }
}

/// The region that holds an address.
fn find_region(mem: &Memory, a: u64) -> (r: Option<usize>)
    requires
        mem.wf(),
    ensures
        r matches Some(i) ==> i < mem.regions.len() && mem.regions@[i as int].covers(a as int),
        r is None ==> forall|i: int| 0 <= i < mem.regions.len() ==> !(#[trigger] mem.regions@[i]).covers(a as int),
{
    let mut i: usize = 0;
    while i < mem.regions.len()
        invariant
            i <= mem.regions.len(),
            mem.wf(),
            forall|k: int| 0 <= k < i ==> !(#[trigger] mem.regions@[k]).covers(a as int),
        decreases mem.regions.len() - i,
    {
        let g: &Region = &mem.regions[i];
        assert(mem.regions@[i as int].end() <= u64::MAX);
        if g.base <= a && a - g.base < g.bytes.len() as u64 {
            return Some(i);
        }
        i = i + 1;
    }
    None
}

/// Whether all the bytes from an address on can be read.
pub fn readable(mem: &Memory, ptr: u64, len: u64) -> (r: bool)
    requires
        mem.wf(),
    ensures
        r == mem.can_read(ptr as int, len as int),
{
    if ptr == 0 || len == 0 {
        return false;
    }
    let mut checked: u64 = 0;
    while checked < len
        invariant
            mem.wf(),
            ptr != 0,
            len != 0,
            ptr + checked <= u64::MAX || checked >= len,
            forall|k: int| 0 <= k < checked && k < len ==> #[trigger] mem.readable_at(ptr + k),
        decreases
            if checked < len {
                len - checked
            } else {
                0
            },
    {
        let p: u64 = ptr + checked;
        match find_region(mem, p) {
            Some(i) => {
                let g: &Region = &mem.regions[i];
                assert(mem.regions@[i as int].end() <= u64::MAX);
                if !page_allows_read(g.committed, g.protect) {
                    proof {
                        assert(!mem.readable_at(ptr + checked)) by {
                            if mem.readable_at(ptr + checked) {
                                let j = choose|j: int|
                                    0 <= j < mem.regions@.len() && (#[trigger] mem.regions@[j]).covers(ptr + checked) && page_readable(
                                        mem.regions@[j].committed,
                                        mem.regions@[j].protect,
                                    );
                                assert(mem.regions@[i as int].covers(ptr + checked));
                                assert(mem.regions@[j].covers(ptr + checked));
                            }
                        }
                    }
                    return false;
                }
                let end: u64 = g.base + g.bytes.len() as u64;
                let next: u64 = end - ptr;
                proof {
                    assert forall|k: int| 0 <= k < next && k < len implies #[trigger] mem.readable_at(ptr + k) by {
                        if k >= checked {
                            assert(mem.regions@[i as int].covers(ptr + k));
                        }
                    }
                }
                checked = next;
            },
            None => {
                proof {
                    assert(!mem.readable_at(ptr + checked)) by {
                        if mem.readable_at(ptr + checked) {
                            let j = choose|j: int|
                                0 <= j < mem.regions@.len() && (#[trigger] mem.regions@[j]).covers(ptr + checked) && page_readable(
                                    mem.regions@[j].committed,
                                    mem.regions@[j].protect,
                                );
                            assert(mem.regions@[j].covers(p as int));
                        }
                    }
                }
                return false;
            },
        }
    }
    true
}

fn read_byte(mem: &Memory, a: u64) -> (r: u8)
    requires
        mem.wf(),
        mem.readable_at(a as int),
    ensures
        r == mem.byte_at(a as int),
{
    match find_region(mem, a) {
        Some(i) => {
            proof {
                let j = choose|j: int| 0 <= j < mem.regions@.len() && (#[trigger] mem.regions@[j]).covers(a as int);
                assert(mem.regions@[i as int].covers(a as int));
                assert(mem.regions@[j].covers(a as int));
                assert(i == j);
            }
            let g: &Region = &mem.regions[i];
            let held: usize = g.bytes.len();
            let at: u64 = a - g.base;
            assert(at < held);
            g.bytes[at as usize]
        },
        None => {
            proof {
                let j = choose|j: int|
                    0 <= j < mem.regions@.len() && (#[trigger] mem.regions@[j]).covers(a as int) && page_readable(
                        mem.regions@[j].committed,
                        mem.regions@[j].protect,
                    );
                assert(mem.regions@[j].covers(a as int));
            }
            0
        },
    }
}

/// The bytes from an address on, which must be readable.
pub fn read(mem: &Memory, addr: u64, len: u64) -> (r: Vec<u8>)
    requires
        mem.wf(),
        mem.can_read(addr as int, len as int),
    ensures
        r@ == mem.bytes_at(addr as int, len as int),
{
    let mut out: Vec<u8> = Vec::new();
    let mut k: u64 = 0;
    while k < len
        invariant
            mem.wf(),
            mem.can_read(addr as int, len as int),
            k <= len,
            out@ == mem.bytes_at(addr as int, k as int),
        decreases len - k,
    {
        proof {
            assert(mem.readable_at(addr + k));
            lemma_readable_fits(mem, addr + k);
        }
        out.push(read_byte(mem, addr + k));
        assert(out@ =~= mem.bytes_at(addr as int, k + 1));
        k = k + 1;
    }
    out
}

/// What can be read has an address.
pub proof fn lemma_readable_fits(mem: &Memory, a: int)
    requires
        mem.wf(),
        mem.readable_at(a),
    ensures
        a < u64::MAX,
{
    let j = choose|j: int|
        0 <= j < mem.regions@.len() && (#[trigger] mem.regions@[j]).covers(a) && page_readable(
            mem.regions@[j].committed,
            mem.regions@[j].protect,
        );
    assert(mem.regions@[j].end() <= u64::MAX);
}

/// The bytes from an address on; nothing where they cannot all be read.
pub fn try_read(mem: &Memory, addr: u64, len: u64) -> (r: Option<Vec<u8>>)
    requires
        mem.wf(),
    ensures
        r is Some <==> mem.can_read(addr as int, len as int),
        r matches Some(b) ==> b@ == mem.bytes_at(addr as int, len as int),
{
    if readable(mem, addr, len) {
        Some(read(mem, addr, len))
    } else {
        None
    }
}

/// The 64-bit number at `a`.
pub open spec fn word_at(mem: Memory, a: int) -> nat {
    le_value(mem.bytes_at(a, 8))
}

/// The 64-bit number at an address; nothing where it cannot be read.
pub fn try_read_u64(mem: &Memory, addr: u64) -> (r: Option<u64>)
    requires
        mem.wf(),
    ensures
        r is Some <==> mem.can_read(addr as int, 8),
        r matches Some(v) ==> v == word_at(*mem, addr as int),
{
    match try_read(mem, addr, 8) {
        Some(b) => {
            assert(b@.subrange(0, 8) =~= b@);
            Some(le_u64(&b, 0, 8))
        },
        None => None,
    }
}

/// The number of `n` bytes at `a`, the lowest byte first.
pub open spec fn number_at(mem: Memory, a: int, n: int) -> nat {
    le_value(mem.bytes_at(a, n))
}

/// Whether all the bytes from an offset on can be read.
pub fn readable_off(mem: &Memory, base: u64, off: u64, len: u64) -> (r: bool)
    requires
        mem.wf(),
        len > 0,
    ensures
        r == mem.can_read(base + off, len as int),
{
    match base.checked_add(off) {
        Some(a) => readable(mem, a, len),
        None => {
            assert(!mem.can_read(base + off, len as int)) by {
                if mem.can_read(base + off, len as int) {
                    assert(mem.readable_at(base + off + 0));
                    lemma_readable_fits(mem, base + off);
                }
            }
            false
        },
    }
}

/// The number of `n` bytes at an offset; nothing where it cannot be read.
pub fn try_read_off(mem: &Memory, base: u64, off: u64, n: u64) -> (r: Option<u64>)
    requires
        mem.wf(),
        0 < n <= 8,
    ensures
        r is Some <==> mem.can_read(base + off, n as int),
        r matches Some(v) ==> v == number_at(*mem, base + off, n as int),
{
    if !readable_off(mem, base, off, n) {
        return None;
    }
    proof {
        assert(mem.readable_at(base + off + 0));
        lemma_readable_fits(mem, base + off);
    }
    let b: Vec<u8> = read(mem, base + off, n);
    assert(b@.subrange(0, n as int) =~= b@);
    Some(le_u64(&b, 0, b.len()))
}

/// The object that the word at `a` points to, other than the object itself;
/// none where it cannot be read.
pub open spec fn pointed(mem: Memory, object: int, a: int) -> Option<int> {
    let sub = word_at(mem, a) as int;
    if !mem.can_read(a, 8) || sub == 0 || sub == object || !mem.can_read(sub, 0x40) {
        None
    } else {
        Some(sub)
    }
}

/// The object that a word of another points to.
pub fn follow(mem: &Memory, object: u64, off: u64) -> (r: Option<u64>)
    requires
        mem.wf(),
    ensures
        r is Some <==> pointed(*mem, object as int, object + off) is Some,
        r matches Some(s) ==> pointed(*mem, object as int, object + off) == Some(s as int),
{
    match try_read_off(mem, object, off, 8) {
        Some(sub) => if sub != 0 && sub != object && readable(mem, sub, 0x40) {
            Some(sub)
        } else {
            None
        },
        None => None,
    }
}

/// Where the draw queue says that it draws ghosts.
pub const DQ_GHOST_MODE: u64 = 0x12A0;

/// Whether the draw queue draws ghosts or the preview at the build cursor.
pub fn dq_is_ghost(mem: &Memory, dq: u64) -> (r: bool)
    requires
        mem.wf(),
        dq != 0 ==> mem.can_read(dq + DQ_GHOST_MODE, 1),
    ensures
        r == (dq != 0 && mem.byte_at(dq + DQ_GHOST_MODE) != 0),
{
    if dq == 0 {
        return false;
    }
    proof {
        assert(mem.readable_at(dq + DQ_GHOST_MODE + 0));
        lemma_readable_fits(mem, dq + DQ_GHOST_MODE);
    }
    read_byte(mem, dq + DQ_GHOST_MODE) != 0
}

/// How far into an object its strings are looked for, in bytes.
pub const SCAN_BYTES: u64 = 0x600;

/// The most strings that are taken from one object.
pub const SCAN_LIMIT: usize = 8;

/// The length field of the string object at `sp`.
pub open spec fn string_size(mem: Memory, sp: int) -> int {
    word_at(mem, sp + 0x10) as int
}

/// The capacity field of the string object at `sp`.
pub open spec fn string_cap(mem: Memory, sp: int) -> int {
    word_at(mem, sp + 0x18) as int
}

/// Where the text of the string object at `sp` stands: in the object itself for
/// the smallest capacity, else behind its pointer.
pub open spec fn string_data(mem: Memory, sp: int) -> int {
    if string_cap(mem, sp) == 15 {
        sp
    } else {
        word_at(mem, sp) as int
    }
}

/// All bytes are printable.
pub open spec fn printable(b: Seq<u8>) -> bool {
    forall|k: int| 0 <= k < b.len() ==> 0x20 <= #[trigger] b[k] < 0x7F
}

/// There is a string object at `sp` that holds a printable text of a length
/// that a name may have, with a zero behind it.
pub open spec fn string_at(mem: Memory, sp: int) -> bool {
    let size = string_size(mem, sp);
    let cap = string_cap(mem, sp);
    let data = string_data(mem, sp);
    &&& mem.can_read(sp, 32)
    &&& 3 <= size <= 48
    &&& size <= cap
    &&& 15 <= cap < 0x1000
    &&& cap == 15 || mem.can_read(data, size + 1)
    &&& mem.byte_at(data + size) == 0
    &&& printable(mem.bytes_at(data, size))
}

/// The characters of bytes that are all ASCII.
pub open spec fn ascii(b: Seq<u8>) -> Seq<char> {
    b.map_values(|x: u8| x as char)
}

/// The text of the string object at `sp`.
pub open spec fn text_at(mem: Memory, sp: int) -> Seq<char> {
    ascii(mem.bytes_at(string_data(mem, sp), string_size(mem, sp)))
}

/// The strings among the first `n` words of an object: their offsets and their
/// texts.
pub open spec fn strings_in(mem: Memory, object: int, n: int) -> Seq<(u64, Seq<char>)>
    decreases n,
{
    if n <= 0 {
        Seq::empty()
    } else {
        let before = strings_in(mem, object, n - 1);
        let off = 8 * (n - 1);
        if before.len() < SCAN_LIMIT && string_at(mem, object + off) {
            before.push((off as u64, text_at(mem, object + off)))
        } else {
            before
        }
    }
}

/// The views of found strings.
pub open spec fn found_views(v: Seq<(u64, String)>) -> Seq<(u64, Seq<char>)> {
    v.map_values(|f: (u64, String)| (f.0, f.1@))
}

/// `String::from_utf8_lossy`: bytes that are all below 0x80 are valid UTF-8, and
/// each of them is the character of that code.
#[verifier::external_body]
fn ascii_text(bytes: &Vec<u8>) -> (r: String)
    requires
        forall|k: int| 0 <= k < bytes@.len() ==> #[trigger] bytes@[k] < 0x80,
    ensures
        r@ == ascii(bytes@),
{
    String::from_utf8_lossy(bytes).into_owned()
}

proof fn lemma_part_readable(mem: &Memory, a: int, len: int, from: int, n: int)
    requires
        mem.can_read(a, len),
        0 <= from,
        0 < n,
        from + n <= len,
        a + from != 0,
    ensures
        mem.can_read(a + from, n),
{
    assert forall|k: int| 0 <= k < n implies #[trigger] mem.readable_at(a + from + k) by {
        assert(mem.readable_at(a + (from + k)));
    }
}

fn all_printable(b: &Vec<u8>, n: usize) -> (r: bool)
    requires
        n <= b.len(),
    ensures
        r == printable(b@.take(n as int)),
{
    let mut k: usize = 0;
    while k < n
        invariant
            k <= n <= b.len(),
            forall|j: int| 0 <= j < k ==> 0x20 <= #[trigger] b@[j] < 0x7F,
        decreases n - k,
    {
        if !(0x20 <= b[k] && b[k] < 0x7F) {
            assert(b@.take(n as int)[k as int] == b@[k as int]);
            return false;
        }
        k = k + 1;
    }
    true
}

/// The text of the string object at an address, where there is one.
fn read_string(mem: &Memory, sp: u64) -> (r: Option<String>)
    requires
        mem.wf(),
    ensures
        r is Some <==> string_at(*mem, sp as int),
        r matches Some(t) ==> t@ == text_at(*mem, sp as int),
{
    let head: Vec<u8> = match try_read(mem, sp, 32) {
        Some(b) => b,
        None => {
            return None;
        },
    };
    proof {
        assert(head@.subrange(0x10, 0x18) =~= mem.bytes_at(sp + 0x10, 8));
        assert(head@.subrange(0x18, 0x20) =~= mem.bytes_at(sp + 0x18, 8));
        assert(head@.subrange(0, 8) =~= mem.bytes_at(sp as int, 8));
    }
    let size: u64 = le_u64(&head, 0x10, 0x18);
    let cap: u64 = le_u64(&head, 0x18, 0x20);
    if !(3 <= size && size <= 48) || cap < size || cap < 15 || cap >= 0x1000 {
        return None;
    }
    let data: u64 = if cap == 15 {
        proof {
            lemma_part_readable(mem, sp as int, 32, 0, size + 1);
        }
        sp
    } else {
        let p: u64 = le_u64(&head, 0, 8);
        if !readable(mem, p, size + 1) {
            return None;
        }
        p
    };
    let mut bytes: Vec<u8> = read(mem, data, size + 1);
    let n: usize = size as usize;
    proof {
        assert(bytes@[n as int] == mem.byte_at(data + size));
        assert(bytes@.take(n as int) =~= mem.bytes_at(data as int, size as int));
    }
    if bytes[n] != 0 || !all_printable(&bytes, n) {
        return None;
    }
    bytes.truncate(n);
    assert(bytes@ =~= mem.bytes_at(data as int, size as int));
    Some(ascii_text(&bytes))
}

/// The strings that stand in an object, with their offsets: the names of
/// prototypes are found this way. At most eight are taken.
pub fn scan_proto_strings(mem: &Memory, proto: u64) -> (r: Vec<(u64, String)>)
    requires
        mem.wf(),
    ensures
        found_views(r@) == strings_in(*mem, proto as int, 192),
{
    let mut found: Vec<(u64, String)> = Vec::new();
    let mut off: u64 = 0;
    let ghost mut n: int = 0;
    assert(found_views(found@) =~= strings_in(*mem, proto as int, 0));
    while off < SCAN_BYTES && found.len() < SCAN_LIMIT
        invariant
            mem.wf(),
            off == 8 * n,
            0 <= n <= 192,
            found.len() <= SCAN_LIMIT,
            found_views(found@) == strings_in(*mem, proto as int, n),
        decreases SCAN_BYTES - off,
    {
        let ghost before = found@;
        let text: Option<String> = match proto.checked_add(off) {
            Some(sp) => read_string(mem, sp),
            None => {
                assert(!string_at(*mem, proto + off)) by {
                    if string_at(*mem, proto + off) {
                        assert(mem.readable_at(proto + off + 0));
                        lemma_readable_fits(mem, proto + off);
                    }
                }
                None
            },
        };
        match text {
            Some(t) => {
                found.push((off, t));
                assert(found_views(found@) =~= found_views(before).push((off, t@)));
            },
            None => {},
        }
        assert(found_views(before).len() == before.len());
        off = off + 8;
        proof {
            n = n + 1;
        }
    }
    proof {
        assert(found_views(found@).len() == found@.len());
        if n < 192 {
            lemma_scan_full(*mem, proto as int, n, 192);
        }
    }
    found
}

proof fn lemma_scan_full(mem: Memory, object: int, n: int, m: int)
    requires
        0 <= n <= m,
        strings_in(mem, object, n).len() >= SCAN_LIMIT,
    ensures
        strings_in(mem, object, m) == strings_in(mem, object, n),
    decreases m,
{
    if n < m {
        lemma_scan_full(mem, object, n, m - 1);
    }
}

/// No more strings are found than the limit, and each is a printable text of 3
/// to 48 characters at the offset it is given with.
pub proof fn lemma_scan_finds_names(mem: Memory, object: int, n: int)
    requires
        0 <= n <= 192,
    ensures
        strings_in(mem, object, n).len() <= SCAN_LIMIT,
        forall|i: int|
            0 <= i < strings_in(mem, object, n).len() ==> {
                let f = #[trigger] strings_in(mem, object, n)[i];
                &&& f.0 % 8 == 0
                &&& f.0 < 8 * n
                &&& string_at(mem, object + f.0)
                &&& f.1 == text_at(mem, object + f.0)
                &&& 3 <= f.1.len() <= 48
            },
    decreases n,
{
    if n > 0 {
        lemma_scan_finds_names(mem, object, n - 1);
    }
}

/// A page is read where it is committed, its protection lets it be read, and it is no
/// guard page.
pub proof fn lemma_readable_pages(committed: bool, protect: u32, r: bool)
    requires
        call_ensures(page_allows_read, (committed, protect), r),
    ensures
        r <==> committed && protect & 0xEE != 0 && protect & 0x101 == 0,
{
}

/// What is read are the bytes of the region that the address lies in, as long as every
/// one of them lies in a readable one; null is never read.
pub proof fn lemma_what_is_read(mem: &Memory, addr: u64, len: u64, r: Option<Vec<u8>>, i: int, k: int)
    requires
        mem.wf(),
        call_ensures(try_read, (mem, addr, len), r),
        0 <= i < mem.regions@.len(),
        0 <= k < len,
        mem.regions@[i].base <= addr + k < mem.regions@[i].base + mem.regions@[i].bytes@.len(),
    ensures
        r matches Some(b) ==> b@.len() == len && b@[k] == mem.regions@[i].bytes@[addr + k - mem.regions@[i].base],
        r is Some ==> mem.regions@[i].committed && mem.regions@[i].protect & 0xEE != 0 && addr != 0,
        addr == 0 ==> r is None,
{
    assert(mem.regions@[i].covers(addr + k));
    if r is Some {
        assert(mem.readable_at(addr + k));
        let j = choose|j: int|
            0 <= j < mem.regions@.len() && (#[trigger] mem.regions@[j]).covers(addr + k) && page_readable(
                mem.regions@[j].committed,
                mem.regions@[j].protect,
            );
        assert(i == j);
        let c = choose|c: int| 0 <= c < mem.regions@.len() && (#[trigger] mem.regions@[c]).covers(addr + k);
        assert(c == i);
    }
}

/// Outside all regions nothing is read, nor where they end before the last byte.
pub proof fn lemma_nothing_is_read(mem: &Memory, addr: u64, len: u64, r: Option<Vec<u8>>, k: int)
    requires
        mem.wf(),
        call_ensures(try_read, (mem, addr, len), r),
        0 <= k < len,
        forall|i: int| 0 <= i < mem.regions@.len() ==> !(#[trigger] mem.regions@[i]).covers(addr + k),
    ensures
        r is None,
{
    assert(!mem.readable_at(addr + k));
}

/// What counts as a name in memory: from 3 to 48 printable characters and a zero, with
/// a size and a capacity that fit each other, in place where the capacity is 15 and
/// behind a pointer otherwise.
pub proof fn lemma_what_is_a_name(mem: Memory, sp: int)
    ensures
        string_at(mem, sp) ==> ({
            let size = word_at(mem, sp + 0x10) as int;
            let cap = word_at(mem, sp + 0x18) as int;
            let data = if cap == 15 {
                sp
            } else {
                word_at(mem, sp) as int
            };
            &&& mem.can_read(sp, 32)
            &&& 3 <= size <= 48 && size <= cap && 15 <= cap < 4096
            &&& cap != 15 ==> mem.can_read(data, size + 1)
            &&& mem.byte_at(data + size) == 0
            &&& text_at(mem, sp).len() == size
            &&& forall|k: int| 0 <= k < size ==> #[trigger] text_at(mem, sp)[k] == mem.byte_at(data + k) as char
            &&& forall|k: int| 0 <= k < size ==> 0x20 <= #[trigger] mem.byte_at(data + k) <= 0x7E
        }),
{
    if string_at(mem, sp) {
        let size = string_size(mem, sp);
        let data = string_data(mem, sp);
        let b = mem.bytes_at(data, size);
        assert forall|k: int| 0 <= k < size implies 0x20 <= #[trigger] mem.byte_at(data + k) <= 0x7E by {
            assert(b[k] == mem.byte_at(data + k));
        }
        assert forall|k: int| 0 <= k < size implies #[trigger] text_at(mem, sp)[k] == mem.byte_at(data + k) as char by {
            assert(b[k] == mem.byte_at(data + k));
        }
    }
}

/// Every name that stands at one of the first words of an object is found, from the
/// lowest on, as long as fewer than eight were found before it.
pub proof fn lemma_names_are_found(mem: Memory, object: int, n: int, k: int)
    requires
        0 <= k < n <= 192,
        string_at(mem, object + 8 * k),
        strings_in(mem, object, k).len() < 8,
    ensures
        strings_in(mem, object, n).len() > strings_in(mem, object, k).len(),
        strings_in(mem, object, n)[strings_in(mem, object, k).len() as int] == (
            (8 * k) as u64,
            text_at(mem, object + 8 * k),
        ),
    decreases n,
{
    if k < n - 1 {
        lemma_names_are_found(mem, object, n - 1, k);
    }
}

/// A pointer is followed where it can be read, leads elsewhere than to the object
/// itself, and what it leads to can be read.
pub proof fn lemma_followed_pointers(mem: &Memory, object: u64, off: u64, r: Option<u64>)
    requires
        mem.wf(),
        call_ensures(follow, (mem, object, off), r),
    ensures
        ({
            let to = word_at(*mem, object + off) as int;
            &&& r is Some <==> mem.can_read(object + off, 8) && to != 0 && to != object && mem.can_read(to, 64)
            &&& r matches Some(s) ==> s == to
        }),
{
}

} // verus!
