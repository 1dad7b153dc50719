use vstd::prelude::*;
use crate::constants::{align, align_spec, is_aligned, is_aligned_spec, canonical_spec, PAGE_ADDR_MASK};
use crate::paging::{PageSize, Level};
use crate::paging::table::{Entry, Info, info_bits};
use crate::paging::segment::{Segment, le_u64, le_bytes};
use crate::paging::layout::Layout;

verus! {

/// Bits of the address that the entries of a table at depth `d` select on: 39 for the
/// root, then 30, 21 and 12.
pub open spec fn sh(d: int) -> u64 {
    if d == 0 {
        39
    } else if d == 1 {
        30
    } else if d == 2 {
        21
    } else {
        12
    }
}

/// The depth of the table whose entries map pages of `2^t` bytes.
pub open spec fn depth_of_shift(t: u64) -> int {
    if t == 30 {
        1
    } else if t == 21 {
        2
    } else {
        3
    }
}

/// The entry that points at a table: present, writable, user-accessible.
pub open spec fn ptr_bits(phys: u64) -> u64 {
    phys | 7u64
}

/// A page to be mapped: its virtual address, the base-two logarithm of its size, and its entry.
pub type PagePlacement = (u64, u64, u64);

/// Page `p` lies under the entry of a depth-`d` table whose range is numbered `key`.
pub open spec fn under(p: PagePlacement, d: int, key: int) -> bool {
    p.1 <= sh(d) && (p.0 >> sh(d)) as int == key
}

/// Page `p` is exactly the range of that entry.
pub open spec fn leaf_at(p: PagePlacement, d: int, key: int) -> bool {
    p.1 == sh(d) && (p.0 >> sh(d)) as int == key
}

/// Two pages share an address.
pub open spec fn pages_overlap(p: PagePlacement, q: PagePlacement) -> bool {
    let m = if p.1 >= q.1 { p.1 } else { q.1 };
    p.0 >> m == q.0 >> m
}

/// No two pages of the sequence share an address.
pub open spec fn pages_disjoint(ps: Seq<PagePlacement>) -> bool {
    forall|i: int, j: int|
        0 <= i < j < ps.len() ==> !pages_overlap(#[trigger] ps[i], #[trigger] ps[j])
}

/// The physical address of table `j` of a base at `base`.
pub open spec fn phys_of(base: u64, j: int) -> u64 {
    (base + 0x1000 * j) as u64
}

/// The entry `x` of table `i` in a flat sequence of entries.
pub open spec fn word(w: Seq<u64>, i: int, x: int) -> u64 {
    w[512 * i + x]
}

/// Entry `x` of table `i` is empty, points at the table below it, or maps a placed page.
pub open spec fn entry_ok(
    w: Seq<u64>,
    meta: Seq<(int, int)>,
    base: u64,
    placed: Seq<PagePlacement>,
    cur: (u64, u64),
    i: int,
    x: int,
) -> bool {
    let e = word(w, i, x);
    let d = meta[i].0;
    let key = meta[i].1 * 512 + x;
    ||| e == 0
    ||| {
        &&& d < 3
        &&& exists|j: int|
            0 < j < meta.len() && e == ptr_bits(phys_of(base, j)) && #[trigger] meta[j] == (
            d + 1,
            key,
        )
        &&& (exists|k: int| 0 <= k < placed.len() && under(#[trigger] placed[k], d, key)) || (cur.1
            < sh(d) && (cur.0 >> sh(d)) as int == key)
    }
    ||| {
        &&& d >= 1
        &&& exists|k: int|
            0 <= k < placed.len() && leaf_at(#[trigger] placed[k], d, key) && e == placed[k].2
    }
}

/// The shape of the tables: the root first, each table numbered by its depth and the range it
/// covers, every table below the root pointed at from its parent, every placed page mapped.
pub open spec fn tables_inv(
    w: Seq<u64>,
    meta: Seq<(int, int)>,
    base: u64,
    placed: Seq<PagePlacement>,
    cur: (u64, u64),
) -> bool {
    &&& meta.len() >= 1
    &&& w.len() == 512 * meta.len()
    &&& meta[0] == (0int, 0int)
    &&& forall|i: int| 0 <= i < meta.len() ==> 0 <= (#[trigger] meta[i]).0 <= 3 && meta[i].1 >= 0
    &&& forall|i: int| 1 <= i < meta.len() ==> (#[trigger] meta[i]).0 >= 1
    &&& forall|i: int, j: int|
        0 <= i < meta.len() && 0 <= j < meta.len() && i != j ==> #[trigger] meta[i]
            != #[trigger] meta[j]
    &&& forall|i: int, x: int|
        0 <= i < meta.len() && 0 <= x < 512 ==> #[trigger] entry_ok(w, meta, base, placed, cur, i, x)
    &&& forall|j: int|
        #![trigger meta[j]]
        1 <= j < meta.len() ==> exists|i: int|
            0 <= i < meta.len() && #[trigger] meta[i] == (meta[j].0 - 1, meta[j].1 / 512) && word(
                w,
                i,
                meta[j].1 % 512,
            ) == ptr_bits(phys_of(base, j))
    &&& forall|k: int|
        #![trigger placed[k]]
        0 <= k < placed.len() ==> exists|i: int|
            0 <= i < meta.len() && #[trigger] meta[i] == (
                depth_of_shift(placed[k].1),
                (placed[k].0 >> (placed[k].1 + 9) as u64) as int,
            ) && word(w, i, ((placed[k].0 >> placed[k].1) as int) % 512) == placed[k].2
}

/// A flat buffer of page-map tables at physical address `base`, table `i` at
/// `base + 0x1000 * i`.
pub struct RelativeBase {
    base: u64,
    used: u64,
    entries: Vec<u64>,
    meta: Ghost<Seq<(int, int)>>,
}

impl RelativeBase {
    pub closed spec fn base_addr(&self) -> u64 {
        self.base
    }

    /// The entries of all tables, table after table.
    pub closed spec fn words(&self) -> Seq<u64> {
        self.entries@
    }

    /// Depth and range number of each table.
    pub closed spec fn layout_meta(&self) -> Seq<(int, int)> {
        self.meta@
    }

    pub closed spec fn shape(&self) -> bool {
        &&& self.entries@.len() == 512 * self.meta@.len()
        &&& self.used == 0x1000 * self.meta@.len()
        &&& is_aligned_spec(self.base, 0x1000)
        &&& self.base + 0x1000 * self.meta@.len() <= 0x8000_0000_0000
    }

    pub open spec fn table_count(&self) -> int {
        self.layout_meta().len() as int
    }

    /// An empty buffer of tables at `base`.
    pub fn new(base: u64) -> (r: RelativeBase)
        requires
            is_aligned_spec(base, 0x1000),
            base <= 0x8000_0000_0000,
        ensures
            r.shape(),
            r.base_addr() == base,
            r.words() == Seq::<u64>::empty(),
            r.layout_meta() == Seq::<(int, int)>::empty(),
    {
        RelativeBase { base: base, used: 0, entries: Vec::new(), meta: Ghost(Seq::empty()) }
    }

    /// The physical address of table `address`.
    pub fn to_physical(&self, address: u64) -> (r: Option<u64>)
        requires
            self.shape(),
        ensures
            r == if address < self.table_count() {
                Some(phys_of(self.base_addr(), address as int))
            } else {
                None::<u64>
            },
    {
        if address < self.used / 0x1000 {
            Some(self.base + address * 0x1000)
        } else {
            None
        }
    }

    /// The table whose physical address is `address`.
    pub fn to_virtual(&self, address: u64) -> (r: Option<u64>)
        requires
            self.shape(),
        ensures
            r == if address >= self.base_addr() && (address - self.base_addr()) % 0x1000 == 0 && (
            address - self.base_addr()) / 0x1000 < self.table_count() {
                Some(((address - self.base_addr()) / 0x1000) as u64)
            } else {
                None::<u64>
            },
    {
        if address >= self.base && (address - self.base) % 0x1000 == 0 && (address - self.base)
            / 0x1000 < self.used / 0x1000 {
            Some((address - self.base) / 0x1000)
        } else {
            None
        }
    }

    /// Append an empty table, numbered by `m`; give back its number.
    fn new_table(&mut self, Ghost(m): Ghost<(int, int)>) -> (r: u64)
        requires
            old(self).shape(),
            old(self).base + 0x1000 * (old(self).meta@.len() + 1) <= 0x8000_0000_0000,
        ensures
            final(self).shape(),
            r == old(self).meta@.len(),
            final(self).base == old(self).base,
            final(self).meta@ == old(self).meta@.push(m),
            final(self).entries@ == old(self).entries@ + Seq::new(512, |i: int| 0u64),
    {
        let offset = align(self.used, 0x1000);
        proof {
            let u = self.used;
            assert(u == 0x1000 * (u / 0x1000));
            assert(u & 0xfff == 0) by (bit_vector)
                requires
                    u == 0x1000 * (u / 0x1000),
            ;
            crate::constants::lemma_mask_round((u + 0xfff) as u64, 0xfff);
            assert(offset == u) by (bit_vector)
                requires
                    u & 0xfff == 0,
                    u + 0x1000 <= u64::MAX,
                    offset == ((u + 0xfff) as u64) & !0xfffu64,
            ;
        }
        self.used = offset + 0x1000;
        let ghost old_entries = self.entries@;
        let mut i: usize = 0;
        while i < 512
            invariant
                0 <= i <= 512,
                self.entries@ == old_entries + Seq::new(i as nat, |k: int| 0u64),
                self.base == old(self).base,
                self.meta@ == old(self).meta@,
                self.used == offset + 0x1000,
                offset == old(self).used,
                old(self).shape(),
                old_entries == old(self).entries@,
            decreases 512 - i,
        {
            self.entries.push(0);
            proof {
                assert(self.entries@ =~= old_entries + Seq::new((i + 1) as nat, |k: int| 0u64));
            }
            i = i + 1;
        }
        self.meta = Ghost(self.meta@.push(m));
        offset / 0x1000
    }

    /// Drop all tables.
    pub fn clear(&mut self)
        requires
            old(self).shape(),
        ensures
            final(self).shape(),
            final(self).base_addr() == old(self).base_addr(),
            final(self).words() == Seq::<u64>::empty(),
            final(self).layout_meta() == Seq::<(int, int)>::empty(),
    {
        self.used = 0;
        self.entries.clear();
        self.meta = Ghost(Seq::empty());
    }

    /// Entry `idx` of table `table`.
    fn read(&self, table: u64, idx: u64) -> (r: u64)
        requires
            self.shape(),
            table < self.meta@.len(),
            idx < 512,
        ensures
            r == word(self.entries@, table as int, idx as int),
    {
        proof {
            assert(table * 512 + idx < self.entries@.len()) by (nonlinear_arith)
                requires
                    table < self.meta@.len(),
                    idx < 512,
                    self.entries@.len() == 512 * self.meta@.len(),
            ;
        }
        let len = self.entries.len();
        let n = (table * 512 + idx) as usize;
        self.entries[n]
    }

    /// Store `value` as entry `idx` of table `table`; give back the old entry.
    fn write(&mut self, table: u64, idx: u64, value: u64) -> (r: u64)
        requires
            old(self).shape(),
            table < old(self).meta@.len(),
            idx < 512,
        ensures
            final(self).shape(),
            final(self).base == old(self).base,
            final(self).meta@ == old(self).meta@,
            r == word(old(self).entries@, table as int, idx as int),
            final(self).entries@ == old(self).entries@.update(512 * table + idx, value),
    {
        proof {
            assert(table * 512 + idx < self.entries@.len()) by (nonlinear_arith)
                requires
                    table < self.meta@.len(),
                    idx < 512,
                    self.entries@.len() == 512 * self.meta@.len(),
            ;
        }
        let n = (table * 512 + idx) as usize;
        let old_value = self.entries[n];
        self.entries.set(n, value);
        old_value
    }

    /// The tables as bytes, each entry in little-endian order.
    pub fn into_buffer(self) -> (r: Vec<u8>)
        requires
            self.shape(),
        ensures
            r@.len() == 8 * self.words().len(),
            forall|n: int| 0 <= n < self.words().len() ==> le_u64(r@, 8 * n) == self.words()[n],
    {
        let mut out: Vec<u8> = Vec::new();
        let mut n: usize = 0;
        while n < self.entries.len()
            invariant
                0 <= n <= self.entries@.len(),
                out@.len() == 8 * n,
                forall|m: int| 0 <= m < n ==> le_u64(out@, 8 * m) == self.entries@[m],
            decreases self.entries@.len() - n,
        {
            let ghost before = out@;
            push_word(&mut out, self.entries[n]);
            proof {
                assert forall|m: int| 0 <= m < n + 1 implies le_u64(out@, 8 * m)
                    == self.entries@[m] by {
                    if m < n {
                        lemma_le_u64_same(out@, before, 8 * m, 0);
                    } else {
                        crate::paging::segment::lemma_le_round_trip(self.entries@[m]);
                        lemma_le_u64_same(out@, le_bytes(self.entries@[m]), 8 * m, 8 * m);
                    }
                }
            }
            n = n + 1;
        }
        out
    }
}

proof fn lemma_le_u64_same(a: Seq<u8>, b: Seq<u8>, off: int, shift: int)
    requires
        0 <= off,
        off + 8 <= a.len(),
        0 <= off - shift,
        off - shift + 8 <= b.len(),
        forall|i: int| off <= i < off + 8 ==> a[i] == b[i - shift],
    ensures
        le_u64(a, off) == le_u64(b, off - shift),
{
    assert(a[off] == b[off - shift]);
    assert(a[off + 1] == b[off - shift + 1]);
    assert(a[off + 2] == b[off - shift + 2]);
    assert(a[off + 3] == b[off - shift + 3]);
    assert(a[off + 4] == b[off - shift + 4]);
    assert(a[off + 5] == b[off - shift + 5]);
    assert(a[off + 6] == b[off - shift + 6]);
    assert(a[off + 7] == b[off - shift + 7]);
}

fn push_word(out: &mut Vec<u8>, x: u64)
    ensures
        final(out)@ == old(out)@ + le_bytes(x),
{
    out.push((x & 0xff) as u8);
    out.push(((x >> 8u64) & 0xff) as u8);
    out.push(((x >> 16u64) & 0xff) as u8);
    out.push(((x >> 24u64) & 0xff) as u8);
    out.push(((x >> 32u64) & 0xff) as u8);
    out.push(((x >> 40u64) & 0xff) as u8);
    out.push(((x >> 48u64) & 0xff) as u8);
    out.push(((x >> 56u64) & 0xff) as u8);
    proof {
        assert(final(out)@ =~= old(out)@ + le_bytes(x));
    }
}

/// The table at physical address `a`, among `n` tables at `base`.
pub open spec fn table_of(base: u64, n: int, a: u64) -> Option<int> {
    if a >= base && (a - base) % 0x1000 == 0 && (a - base) / 0x1000 < n {
        Some((a - base) / 0x1000)
    } else {
        None
    }
}

/// The table that entry `x` of table `i` points at, read as the processor reads it.
pub open spec fn next_table(w: Seq<u64>, base: u64, i: int, x: int) -> Option<int> {
    let e = word(w, i, x);
    if e & 1u64 != 0 {
        table_of(base, (w.len() / 512) as int, e & PAGE_ADDR_MASK)
    } else {
        None
    }
}

/// The entry that maps the page of `2^t` bytes at `s`, found by walking the tables from the
/// root at table 0.
pub open spec fn walk(w: Seq<u64>, base: u64, s: u64, t: u64) -> Option<u64> {
    match next_table(w, base, 0, ((s >> 39u64) & 0x1ff) as int) {
        None => None,
        Some(j1) => if t == 30 {
            Some(word(w, j1, ((s >> 30u64) & 0x1ff) as int))
        } else {
            match next_table(w, base, j1, ((s >> 30u64) & 0x1ff) as int) {
                None => None,
                Some(j2) => if t == 21 {
                    Some(word(w, j2, ((s >> 21u64) & 0x1ff) as int))
                } else {
                    match next_table(w, base, j2, ((s >> 21u64) & 0x1ff) as int) {
                        None => None,
                        Some(j3) => Some(word(w, j3, ((s >> 12u64) & 0x1ff) as int)),
                    }
                }
            }
        },
    }
}

/// The index bits of an address below 2^48 split into the four table indexes.
pub proof fn lemma_index_split(s: u64)
    by (bit_vector)
    requires
        s < 0x1_0000_0000_0000,
    ensures
        (s >> 39u64) & 0x1ff == s >> 39u64,
        s >> 39u64 < 512,
        s >> 30u64 == (s >> 39u64) * 512 + ((s >> 30u64) & 0x1ff),
        s >> 21u64 == (s >> 30u64) * 512 + ((s >> 21u64) & 0x1ff),
        s >> 12u64 == (s >> 21u64) * 512 + ((s >> 12u64) & 0x1ff),
        (s >> 30u64) & 0x1ff < 512,
        (s >> 21u64) & 0x1ff < 512,
        (s >> 12u64) & 0x1ff < 512,
{
}

/// A pointer entry is present, has the page-size bit clear, and gives back its address.
pub proof fn lemma_ptr_bits(phys: u64)
    requires
        phys & 0xfff == 0,
        phys < 0x8000_0000_0000,
    ensures
        ptr_bits(phys) & 1u64 != 0,
        ptr_bits(phys) & 0x80u64 == 0,
        ptr_bits(phys) & PAGE_ADDR_MASK == phys,
        canonical_spec(phys) == phys,
        ptr_bits(phys) != 0,
{
    assert((phys | 7u64) & 1u64 != 0 && (phys | 7u64) & 0x80u64 == 0 && (phys | 7u64)
        & 0x0000_ffff_ffff_f000u64 == phys && phys | 7u64 != 0 && canonical_spec(phys) == phys)
        by (bit_vector)
        requires
            phys & 0xfff == 0,
            phys < 0x8000_0000_0000,
    ;
}

/// An entry that points at a table is never zero.
proof fn lemma_ptr_nonzero(a: u64)
    by (bit_vector)
    ensures
        a | 7u64 != 0,
{
}

/// An entry with the present bit is never zero.
proof fn lemma_present_nonzero(v: u64)
    by (bit_vector)
    ensures
        v & 1u64 != 0 ==> v != 0,
{
}

/// No placement in progress.
pub open spec fn idle() -> (u64, u64) {
    (0u64, 64u64)
}

/// Placed pages are entries with the present bit, below 2^48, of 1 gigabyte, 2 megabytes or
/// 4 kilobytes.
pub open spec fn placed_ok(placed: Seq<PagePlacement>) -> bool {
    forall|k: int|
        0 <= k < placed.len() ==> {
            &&& (#[trigger] placed[k]).2 & 1u64 != 0
            &&& placed[k].0 < 0x1_0000_0000_0000
            &&& placed[k].1 == 30 || placed[k].1 == 21 || placed[k].1 == 12
        }
}

/// An entry that points at table `j` leads the walk to table `j`.
proof fn lemma_step(w: Seq<u64>, base: u64, n: int, i: int, x: int, j: int)
    requires
        w.len() == 512 * n,
        0 <= i < n,
        0 <= x < 512,
        1 <= j < n,
        is_aligned_spec(base, 0x1000),
        base + 0x1000 * n <= 0x8000_0000_0000,
        word(w, i, x) == ptr_bits(phys_of(base, j)),
    ensures
        next_table(w, base, i, x) == Some(j),
        phys_of(base, j) & 0xfff == 0,
        phys_of(base, j) < 0x8000_0000_0000,
{
    let b = base;
    let a = phys_of(base, j);
    let jj = j as u64;
    assert(a == b + 0x1000 * jj);
    assert(b & 0xfff == 0);
    assert((b + 0x1000 * jj) as u64 & 0xfff == 0) by (bit_vector)
        requires
            b & 0xfff == 0,
            b + 0x1000 * jj <= u64::MAX,
    ;
    lemma_ptr_bits(a);
    assert(w.len() / 512 == n);
    assert((a - base) % 0x1000 == 0 && (a - base) / 0x1000 == j);
}

/// The tables hold every placed page where a walk from the root finds it.
pub proof fn lemma_walk(
    w: Seq<u64>,
    meta: Seq<(int, int)>,
    base: u64,
    placed: Seq<PagePlacement>,
    cur: (u64, u64),
    k: int,
)
    requires
        tables_inv(w, meta, base, placed, cur),
        placed_ok(placed),
        is_aligned_spec(base, 0x1000),
        base + 0x1000 * meta.len() <= 0x8000_0000_0000,
        0 <= k < placed.len(),
    ensures
        walk(w, base, placed[k].0, placed[k].1) == Some(placed[k].2),
{
    let p = placed[k];
    let s = p.0;
    let t = p.1;
    lemma_index_split(s);
    let x0 = (s >> 39u64) as int;
    let x1 = ((s >> 30u64) & 0x1ff) as int;
    let x2 = ((s >> 21u64) & 0x1ff) as int;
    let x3 = ((s >> 12u64) & 0x1ff) as int;
    assert(placed_ok(placed));
    assert(p.2 & 1u64 != 0 && s < 0x1_0000_0000_0000 && (t == 30 || t == 21 || t == 12));
    // the table that holds the page
    let leaf = choose|i: int|
        0 <= i < meta.len() && #[trigger] meta[i] == (
            depth_of_shift(t),
            (s >> (t + 9) as u64) as int,
        ) && word(w, i, ((s >> t) as int) % 512) == p.2;
    assert(0 <= leaf < meta.len() && meta[leaf] == (depth_of_shift(t), (s >> (t + 9) as u64) as int)
        && word(w, leaf, ((s >> t) as int) % 512) == p.2);
    assert(w.len() / 512 == meta.len());
    // the root is the only table at depth 0
    assert forall|i: int| 0 <= i < meta.len() && meta[i].0 == 0 implies i == 0 by {
        if i != 0 {
            assert(meta[i].0 >= 1);
        }
    }
    if t == 12 {
        assert(meta[leaf].1 == (s >> 21u64) as int);
        let p2 = choose|i: int|
            0 <= i < meta.len() && #[trigger] meta[i] == (meta[leaf].0 - 1, meta[leaf].1 / 512)
                && word(w, i, meta[leaf].1 % 512) == ptr_bits(phys_of(base, leaf));
        assert(meta[p2] == (2int, (s >> 30u64) as int));
        let p1 = choose|i: int|
            0 <= i < meta.len() && #[trigger] meta[i] == (meta[p2].0 - 1, meta[p2].1 / 512) && word(
                w,
                i,
                meta[p2].1 % 512,
            ) == ptr_bits(phys_of(base, p2));
        assert(meta[p1] == (1int, (s >> 39u64) as int));
        let p0 = choose|i: int|
            0 <= i < meta.len() && #[trigger] meta[i] == (meta[p1].0 - 1, meta[p1].1 / 512) && word(
                w,
                i,
                meta[p1].1 % 512,
            ) == ptr_bits(phys_of(base, p1));
        assert(p0 == 0);
        lemma_step(w, base, meta.len() as int, 0, x0, p1);
        lemma_step(w, base, meta.len() as int, p1, x1, p2);
        lemma_step(w, base, meta.len() as int, p2, x2, leaf);
    } else if t == 21 {
        assert(meta[leaf].1 == (s >> 30u64) as int);
        let p1 = choose|i: int|
            0 <= i < meta.len() && #[trigger] meta[i] == (meta[leaf].0 - 1, meta[leaf].1 / 512)
                && word(w, i, meta[leaf].1 % 512) == ptr_bits(phys_of(base, leaf));
        assert(meta[p1] == (1int, (s >> 39u64) as int));
        let p0 = choose|i: int|
            0 <= i < meta.len() && #[trigger] meta[i] == (meta[p1].0 - 1, meta[p1].1 / 512) && word(
                w,
                i,
                meta[p1].1 % 512,
            ) == ptr_bits(phys_of(base, p1));
        assert(p0 == 0);
        lemma_step(w, base, meta.len() as int, 0, x0, p1);
        lemma_step(w, base, meta.len() as int, p1, x1, leaf);
    } else {
        assert(meta[leaf].1 == (s >> 39u64) as int);
        let p0 = choose|i: int|
            0 <= i < meta.len() && #[trigger] meta[i] == (meta[leaf].0 - 1, meta[leaf].1 / 512)
                && word(w, i, meta[leaf].1 % 512) == ptr_bits(phys_of(base, leaf));
        assert(p0 == 0);
        lemma_step(w, base, meta.len() as int, 0, x0, leaf);
    }
}

/// The page in progress shares no address with a placed page.
pub open spec fn clear_of(placed: Seq<PagePlacement>, cur: (u64, u64)) -> bool {
    forall|k: int| 0 <= k < placed.len() ==> !pages_overlap(#[trigger] placed[k], (cur.0, cur.1, 0u64))
}

/// The level of the entries of a table at depth `d`.
pub open spec fn level_of_depth(d: int) -> Level {
    if d == 0 {
        Level::PML4E
    } else if d == 1 {
        Level::PDPTE
    } else if d == 2 {
        Level::PDE
    } else {
        Level::PTE
    }
}

/// On the path of the page in progress, a present entry above the page's own level points at
/// the next table.
proof fn lemma_present_is_ptr(
    w: Seq<u64>,
    meta: Seq<(int, int)>,
    base: u64,
    placed: Seq<PagePlacement>,
    cur: (u64, u64),
    i: int,
    x: int,
)
    requires
        tables_inv(w, meta, base, placed, cur),
        clear_of(placed, cur),
        0 <= i < meta.len(),
        0 <= x < 512,
        cur.1 < sh(meta[i].0),
        meta[i].1 * 512 + x == (cur.0 >> sh(meta[i].0)) as int,
        word(w, i, x) != 0,
    ensures
        meta[i].0 < 3,
        exists|j: int|
            0 < j < meta.len() && word(w, i, x) == ptr_bits(phys_of(base, j)) && #[trigger] meta[j]
                == (meta[i].0 + 1, meta[i].1 * 512 + x),
{
    assert(entry_ok(w, meta, base, placed, cur, i, x));
    let d = meta[i].0;
    let key = meta[i].1 * 512 + x;
    if d >= 1 && exists|k: int|
        0 <= k < placed.len() && leaf_at(#[trigger] placed[k], d, key) && word(w, i, x)
            == placed[k].2 {
        let k = choose|k: int|
            0 <= k < placed.len() && leaf_at(#[trigger] placed[k], d, key) && word(w, i, x)
                == placed[k].2;
        assert(!pages_overlap(placed[k], (cur.0, cur.1, 0u64)));
        assert(false);
    }
}

/// Writing the pointer to a new table into an empty entry on the path keeps the shape.
proof fn lemma_link_new_table(
    w: Seq<u64>,
    meta: Seq<(int, int)>,
    base: u64,
    placed: Seq<PagePlacement>,
    cur: (u64, u64),
    i: int,
    x: int,
)
    requires
        tables_inv(w, meta, base, placed, cur),
        0 <= i < meta.len(),
        0 <= x < 512,
        meta[i].0 < 3,
        cur.1 < sh(meta[i].0),
        meta[i].1 * 512 + x == (cur.0 >> sh(meta[i].0)) as int,
        word(w, i, x) == 0,
        placed_ok(placed),
    ensures
        ({
            let n = meta.len() as int;
            let meta2 = meta.push((meta[i].0 + 1, meta[i].1 * 512 + x));
            let w2 = (w + Seq::new(512, |q: int| 0u64)).update(512 * i + x, ptr_bits(
                phys_of(base, n),
            ));
            tables_inv(w2, meta2, base, placed, cur)
        }),
{
    let n = meta.len() as int;
    let d = meta[i].0;
    let key = meta[i].1 * 512 + x;
    let m = (d + 1, key);
    let meta2 = meta.push(m);
    let w1 = w + Seq::new(512, |q: int| 0u64);
    let w2 = w1.update(512 * i + x, ptr_bits(phys_of(base, n)));
    assert(ptr_bits(phys_of(base, n)) != 0) by {
        let a = phys_of(base, n);
        lemma_ptr_nonzero(a);
    }
    // the new table's number is new
    assert forall|j: int| 0 <= j < n implies meta[j] != m by {
        if meta[j] == m {
            assert(j != 0);
            assert(meta[j] == meta[j]);
            let pi = choose|pi: int|
                0 <= pi < meta.len() && #[trigger] meta[pi] == (meta[j].0 - 1, meta[j].1 / 512)
                    && word(w, pi, meta[j].1 % 512) == ptr_bits(phys_of(base, j));
            assert(meta[pi] == meta[i]);
            assert(pi == i);
            assert(word(w, i, x) == ptr_bits(phys_of(base, j)));
            let a = phys_of(base, j);
            lemma_ptr_nonzero(a);
        }
    }
    // words of the old tables
    assert forall|a: int, y: int| 0 <= a < n && 0 <= y < 512 && !(a == i && y == x) implies word(
        w2,
        a,
        y,
    ) == word(w, a, y) by {
        assert(512 * a + y < 512 * n) by (nonlinear_arith)
            requires
                0 <= a < n,
                0 <= y < 512,
        ;
        assert(512 * a + y != 512 * i + x) by (nonlinear_arith)
            requires
                0 <= a,
                0 <= i,
                0 <= y < 512,
                0 <= x < 512,
                !(a == i && y == x),
        ;
    }
    assert(512 * i + x < 512 * n) by (nonlinear_arith)
        requires
            0 <= i < n,
            0 <= x < 512,
    ;
    assert forall|y: int| 0 <= y < 512 implies word(w2, n, y) == 0 by {
        assert(512 * n + y != 512 * i + x) by (nonlinear_arith)
            requires
                0 <= i < n,
                0 <= x < 512,
                0 <= y,
        ;
    }
    assert(word(w2, i, x) == ptr_bits(phys_of(base, n)));
    // entries
    assert forall|a: int, y: int| 0 <= a < meta2.len() && 0 <= y < 512 implies #[trigger] entry_ok(
        w2,
        meta2,
        base,
        placed,
        cur,
        a,
        y,
    ) by {
        if a == n {
        } else if a == i && y == x {
            assert(meta2[n] == (meta2[i].0 + 1, meta2[i].1 * 512 + x));
        } else {
            assert(entry_ok(w, meta, base, placed, cur, a, y));
            assert(meta2[a] == meta[a]);
            let e = word(w, a, y);
            let da = meta[a].0;
            let ka = meta[a].1 * 512 + y;
            if e != 0 && da < 3 && exists|j: int|
                0 < j < meta.len() && e == ptr_bits(phys_of(base, j)) && #[trigger] meta[j] == (
                da + 1,
                ka,
            ) {
                let j = choose|j: int|
                    0 < j < meta.len() && e == ptr_bits(phys_of(base, j)) && #[trigger] meta[j]
                        == (da + 1, ka);
                assert(meta2[j] == meta[j]);
            }
        }
    }
    // parents
    assert forall|j: int|
        #![trigger meta2[j]]
        1 <= j < meta2.len() implies exists|pi: int|
        0 <= pi < meta2.len() && #[trigger] meta2[pi] == (meta2[j].0 - 1, meta2[j].1 / 512) && word(
            w2,
            pi,
            meta2[j].1 % 512,
        ) == ptr_bits(phys_of(base, j)) by {
        if j == n {
            assert(meta2[i] == (meta2[j].0 - 1, meta2[j].1 / 512));
        } else {
            assert(meta[j] == meta[j]);
            let pi = choose|pi: int|
                0 <= pi < meta.len() && #[trigger] meta[pi] == (meta[j].0 - 1, meta[j].1 / 512)
                    && word(w, pi, meta[j].1 % 512) == ptr_bits(phys_of(base, j));
            assert(meta2[pi] == meta[pi]);
            let a = phys_of(base, j);
            lemma_ptr_nonzero(a);
            assert(!(pi == i && meta[j].1 % 512 == x));
        }
    }
    // leaves
    assert forall|k: int|
        #![trigger placed[k]]
        0 <= k < placed.len() implies exists|li: int|
        0 <= li < meta2.len() && #[trigger] meta2[li] == (
            depth_of_shift(placed[k].1),
            (placed[k].0 >> (placed[k].1 + 9) as u64) as int,
        ) && word(w2, li, ((placed[k].0 >> placed[k].1) as int) % 512) == placed[k].2 by {
        assert(placed[k] == placed[k]);
        let li = choose|li: int|
            0 <= li < meta.len() && #[trigger] meta[li] == (
                depth_of_shift(placed[k].1),
                (placed[k].0 >> (placed[k].1 + 9) as u64) as int,
            ) && word(w, li, ((placed[k].0 >> placed[k].1) as int) % 512) == placed[k].2;
        assert(meta2[li] == meta[li]);
        assert(placed[k].2 & 1u64 != 0);
        let v = placed[k].2;
        lemma_present_nonzero(v);
        let yy = ((placed[k].0 >> placed[k].1) as int) % 512;
        assert(!(li == i && yy == x));
    }
    // numbers stay distinct
    assert forall|a: int, b: int|
        0 <= a < meta2.len() && 0 <= b < meta2.len() && a != b implies #[trigger] meta2[a]
        != #[trigger] meta2[b] by {
        if a == n {
            assert(meta[b] != m);
        } else if b == n {
            assert(meta[a] != m);
        }
    }
    assert forall|a: int| 0 <= a < meta2.len() implies 0 <= (#[trigger] meta2[a]).0 <= 3
        && meta2[a].1 >= 0 by {
        if a < n {
            assert(meta[a] == meta2[a]);
        }
    }
    assert forall|a: int| 1 <= a < meta2.len() implies (#[trigger] meta2[a]).0 >= 1 by {
        if a < n {
            assert(meta[a] == meta2[a]);
        }
    }
    assert(w2.len() == 512 * meta2.len());
    assert(meta2[0] == meta[0]);
    assert(meta2.len() >= 1);
}

/// The shape does not depend on which page, if any, is in progress when no entry leans on it.
proof fn lemma_start_placement(
    w: Seq<u64>,
    meta: Seq<(int, int)>,
    base: u64,
    placed: Seq<PagePlacement>,
    cur: (u64, u64),
)
    requires
        tables_inv(w, meta, base, placed, idle()),
    ensures
        tables_inv(w, meta, base, placed, cur),
{
    assert forall|a: int, y: int| 0 <= a < meta.len() && 0 <= y < 512 implies #[trigger] entry_ok(
        w,
        meta,
        base,
        placed,
        cur,
        a,
        y,
    ) by {
        assert(entry_ok(w, meta, base, placed, idle(), a, y));
    }
}

/// Writing the entry of the page in progress into its slot: the slot was empty, and the page
/// is then placed.
proof fn lemma_write_leaf(
    w: Seq<u64>,
    meta: Seq<(int, int)>,
    base: u64,
    placed: Seq<PagePlacement>,
    q: PagePlacement,
    i: int,
    x: int,
)
    requires
        tables_inv(w, meta, base, placed, (q.0, q.1)),
        placed_ok(placed),
        clear_of(placed, (q.0, q.1)),
        0 <= i < meta.len(),
        0 <= x < 512,
        meta[i].0 >= 1,
        sh(meta[i].0) == q.1,
        meta[i].1 * 512 + x == (q.0 >> q.1) as int,
        x == ((q.0 >> q.1) as int) % 512,
        meta[i].1 == (q.0 >> (q.1 + 9) as u64) as int,
        q.2 & 1u64 != 0,
        q.0 < 0x1_0000_0000_0000,
        q.1 == 30 || q.1 == 21 || q.1 == 12,
    ensures
        word(w, i, x) == 0,
        tables_inv(w.update(512 * i + x, q.2), meta, base, placed.push(q), idle()),
        placed_ok(placed.push(q)),
{
    let d = meta[i].0;
    let key = meta[i].1 * 512 + x;
    let n = meta.len() as int;
    let placed2 = placed.push(q);
    let w2 = w.update(512 * i + x, q.2);
    assert(entry_ok(w, meta, base, placed, (q.0, q.1), i, x));
    if word(w, i, x) != 0 {
        if exists|k: int| 0 <= k < placed.len() && under(#[trigger] placed[k], d, key) {
            let k = choose|k: int| 0 <= k < placed.len() && under(#[trigger] placed[k], d, key);
            assert(!pages_overlap(placed[k], (q.0, q.1, 0u64)));
        }
        if exists|k: int|
            0 <= k < placed.len() && leaf_at(#[trigger] placed[k], d, key) && word(w, i, x)
                == placed[k].2 {
            let k = choose|k: int|
                0 <= k < placed.len() && leaf_at(#[trigger] placed[k], d, key) && word(w, i, x)
                    == placed[k].2;
            assert(!pages_overlap(placed[k], (q.0, q.1, 0u64)));
        }
        assert(false);
    }
    assert(512 * i + x < 512 * n) by (nonlinear_arith)
        requires
            0 <= i < n,
            0 <= x < 512,
    ;
    assert forall|a: int, y: int| 0 <= a < n && 0 <= y < 512 && !(a == i && y == x) implies word(
        w2,
        a,
        y,
    ) == word(w, a, y) by {
        assert(512 * a + y != 512 * i + x) by (nonlinear_arith)
            requires
                0 <= a,
                0 <= i,
                0 <= y < 512,
                0 <= x < 512,
                !(a == i && y == x),
        ;
    }
    assert(placed2[placed.len() as int] == q);
    assert forall|k: int| 0 <= k < placed.len() implies placed2[k] == placed[k] by {}
    // entries
    assert forall|a: int, y: int| 0 <= a < n && 0 <= y < 512 implies #[trigger] entry_ok(
        w2,
        meta,
        base,
        placed2,
        idle(),
        a,
        y,
    ) by {
        if a == i && y == x {
            assert(leaf_at(placed2[placed.len() as int], d, key));
        } else {
            assert(entry_ok(w, meta, base, placed, (q.0, q.1), a, y));
            let e = word(w, a, y);
            let da = meta[a].0;
            let ka = meta[a].1 * 512 + y;
            if exists|k: int| 0 <= k < placed.len() && under(#[trigger] placed[k], da, ka) {
                let k = choose|k: int| 0 <= k < placed.len() && under(#[trigger] placed[k], da, ka);
                assert(under(placed2[k], da, ka));
            }
            if q.1 < sh(da) && (q.0 >> sh(da)) as int == ka {
                assert(under(placed2[placed.len() as int], da, ka));
            }
            if exists|k: int|
                0 <= k < placed.len() && leaf_at(#[trigger] placed[k], da, ka) && e == placed[k].2 {
                let k = choose|k: int|
                    0 <= k < placed.len() && leaf_at(#[trigger] placed[k], da, ka) && e
                        == placed[k].2;
                assert(leaf_at(placed2[k], da, ka));
            }
        }
    }
    // parents
    assert forall|j: int|
        #![trigger meta[j]]
        1 <= j < meta.len() implies exists|pi: int|
        0 <= pi < meta.len() && #[trigger] meta[pi] == (meta[j].0 - 1, meta[j].1 / 512) && word(
            w2,
            pi,
            meta[j].1 % 512,
        ) == ptr_bits(phys_of(base, j)) by {
        assert(meta[j] == meta[j]);
        let pi = choose|pi: int|
            0 <= pi < meta.len() && #[trigger] meta[pi] == (meta[j].0 - 1, meta[j].1 / 512) && word(
                w,
                pi,
                meta[j].1 % 512,
            ) == ptr_bits(phys_of(base, j));
        let a = phys_of(base, j);
        lemma_ptr_nonzero(a);
        assert(!(pi == i && meta[j].1 % 512 == x));
    }
    // leaves
    assert forall|k: int|
        #![trigger placed2[k]]
        0 <= k < placed2.len() implies exists|li: int|
        0 <= li < meta.len() && #[trigger] meta[li] == (
            depth_of_shift(placed2[k].1),
            (placed2[k].0 >> (placed2[k].1 + 9) as u64) as int,
        ) && word(w2, li, ((placed2[k].0 >> placed2[k].1) as int) % 512) == placed2[k].2 by {
        if k == placed.len() {
            assert(meta[i] == (depth_of_shift(q.1), (q.0 >> (q.1 + 9) as u64) as int));
        } else {
            assert(placed[k] == placed[k]);
            let li = choose|li: int|
                0 <= li < meta.len() && #[trigger] meta[li] == (
                    depth_of_shift(placed[k].1),
                    (placed[k].0 >> (placed[k].1 + 9) as u64) as int,
                ) && word(w, li, ((placed[k].0 >> placed[k].1) as int) % 512) == placed[k].2;
            assert(placed[k].2 & 1u64 != 0);
            let v = placed[k].2;
            lemma_present_nonzero(v);
            let yy = ((placed[k].0 >> placed[k].1) as int) % 512;
            assert(!(li == i && yy == x));
        }
    }
    assert(w2.len() == 512 * meta.len());
}

} // verus!

verus! {

/// The entry that points at a table is the one built from the settings of a table link.
proof fn lemma_link_info(info: Info)
    requires
        !info.page,
        info.write,
        info.execute,
        info.user,
        !info.global,
        !info.write_through,
        !info.cache_disable,
        !info.attribute_table,
        info.protection_key == 0,
    ensures
        info_bits(info) == ptr_bits(info.address),
{
    let a = info.address;
    let k = info.protection_key as u64;
    assert(k == 0);
    assert(info_bits(info) == (k << 59u64) | a | 1u64 | 0u64 | 0u64 | 0u64 | 0u64 | 0u64 | 0x4u64
        | 0x2u64);
    assert((k << 59u64) | a | 1u64 | 0u64 | 0u64 | 0u64 | 0u64 | 0u64 | 0x4u64 | 0x2u64 == a | 7u64)
        by (bit_vector)
        requires
            k == 0,
    ;
}

/// The base-two logarithm of the size of a page that an entry at `level` maps.
pub open spec fn shift_of_level(level: Level) -> u64 {
    match level {
        Level::PML4E => 39,
        Level::PDPTE => 30,
        Level::PDE => 21,
        Level::PTE => 12,
    }
}

/// The low nine bits of a number are its remainder by 512.
proof fn lemma_mask_mod(y: u64)
    by (bit_vector)
    ensures
        y & 0x1ff == y % 512,
{
}

/// Every entry built from settings is present.
proof fn lemma_info_present(info: Info)
    ensures
        info_bits(info) & 1u64 != 0,
{
    let pk = info.protection_key as u64;
    let a = info.address;
    let c1: u64 = if !info.execute { 0x8000_0000_0000_0000u64 } else { 0 };
    let c2: u64 = if info.global { 0x100u64 } else { 0 };
    let c3: u64 = if (info.level == Level::PTE && info.attribute_table) || info.page {
        0x80u64
    } else if info.attribute_table {
        0x1000u64
    } else {
        0
    };
    let c4: u64 = if info.cache_disable { 0x10u64 } else { 0 };
    let c5: u64 = if info.write_through { 0x8u64 } else { 0 };
    let c6: u64 = if info.user { 0x4u64 } else { 0 };
    let c7: u64 = if info.write { 0x2u64 } else { 0 };
    assert(info_bits(info) == (pk << 59u64) | a | 1u64 | c1 | c2 | c3 | c4 | c5 | c6 | c7);
    assert(((pk << 59u64) | a | 1u64 | c1 | c2 | c3 | c4 | c5 | c6 | c7) & 1u64 != 0)
        by (bit_vector);
}

/// Whether both bases of `s` are aligned to `size` and, when a smaller size exists, the
/// physical end rounded up to `size` lies less than one smaller page beyond the end.
pub open spec fn seg_aligned(s: Segment, size: PageSize) -> bool {
    let end = (s.physical_base + s.size) as u64;
    &&& is_aligned_spec(s.physical_base, size.size_spec())
    &&& is_aligned_spec(s.virtual_base, size.size_spec())
    &&& match size.next_spec() {
        Some(n) => align_spec(end, size.size_spec()) - end < n.size_spec(),
        None => true,
    }
}

/// The largest page size a segment is mapped with.
pub open spec fn chosen_size(s: Segment) -> PageSize {
    if seg_aligned(s, PageSize::Huge) {
        PageSize::Huge
    } else if seg_aligned(s, PageSize::Big) {
        PageSize::Big
    } else {
        PageSize::Page
    }
}

/// The physical address that a segment gives the virtual address `sub`.
pub open spec fn phys_subframe(s: Segment, sub: u64) -> u64 {
    (s.physical_base + sub - s.virtual_base) as u64
}

/// The settings of the page of `s` at `sub`.
pub open spec fn page_info(s: Segment, level: Level, sub: u64) -> Info {
    Info {
        page: true,
        write: s.write,
        execute: s.execute,
        user: s.user,
        global: s.global,
        write_through: false,
        cache_disable: false,
        attribute_table: false,
        protection_key: 0,
        level,
        address: phys_subframe(s, sub),
    }
}

/// The pages of a segment, lowest first: every page of its chosen size that its virtual range
/// touches, with the entry that maps it.
pub open spec fn seg_pages(s: Segment) -> Seq<PagePlacement> {
    let size = chosen_size(s);
    let t = size.shift_spec();
    let start = s.virtual_base >> t;
    let end = ((s.virtual_base + s.size - 1) as u64) >> t;
    Seq::new(
        (end - start + 1) as nat,
        |k: int|
            {
                let sub = ((start + k) as u64) << t;
                (sub, t, info_bits(page_info(s, size.level_spec(), sub)))
            },
    )
}

/// The pages of a sequence of segments, segment after segment.
pub open spec fn layout_pages(segs: Seq<Segment>) -> Seq<PagePlacement>
    decreases segs.len(),
{
    if segs.len() == 0 {
        Seq::empty()
    } else {
        layout_pages(segs.drop_last()) + seg_pages(segs.last())
    }
}

/// A segment that the builder can map: not empty, inside the 48-bit virtual space, and with
/// physical addresses that neither overflow nor, for a first page that starts below the
/// virtual base, fall below zero.
pub open spec fn segment_buildable(s: Segment) -> bool {
    &&& s.size >= 1
    &&& s.virtual_base + s.size <= 0x1_0000_0000_0000
    &&& s.physical_base + s.size + 0x4000_0000 <= u64::MAX
    &&& s.virtual_base & 0xfff <= s.physical_base
}

/// What building the tables of `segs` at `base` needs: an aligned base, buildable segments,
/// pages that share no address, and room for the tables below 2^47.
pub open spec fn build_ok(segs: Seq<Segment>, base: u64) -> bool {
    &&& is_aligned_spec(base, 0x1000)
    &&& forall|i: int| 0 <= i < segs.len() ==> segment_buildable(#[trigger] segs[i])
    &&& pages_disjoint(layout_pages(segs))
    &&& base + 0x1000 * (1 + 3 * layout_pages(segs).len()) <= 0x8000_0000_0000
}

/// A page number shifted back into an address stays below 2^48 and below the address it came
/// from.
proof fn lemma_shift_back(idx: u64, x: u64, t: u64)
    by (bit_vector)
    requires
        x < 0x1_0000_0000_0000,
        idx <= x >> t,
        t == 12 || t == 21 || t == 30,
    ensures
        idx << t <= x,
        (idx << t) >> t == idx,
        idx << t < 0x1_0000_0000_0000,
{
}

/// Distinct page numbers below an address give addresses in the same order.
proof fn lemma_shift_strict(st: u64, idx: u64, x: u64, t: u64)
    by (bit_vector)
    requires
        x < 0x1_0000_0000_0000,
        st < idx,
        idx <= x >> t,
        t == 12 || t == 21 || t == 30,
    ensures
        st << t < idx << t,
{
}

/// An address shifted down and back up is not above it, and is itself when aligned.
proof fn lemma_round_down(v: u64, t: u64)
    by (bit_vector)
    requires
        t == 12 || t == 21 || t == 30,
    ensures
        (v >> t) << t <= v,
        v & (((1u64 << t) - 1) as u64) == 0 ==> (v >> t) << t == v,
{
}

/// Shifting keeps order and does not grow a number.
proof fn lemma_shift_mono(a: u64, b: u64, t: u64)
    by (bit_vector)
    requires
        a <= b,
        t == 12 || t == 21 || t == 30,
    ensures
        a >> t <= b >> t,
        b >> t <= b,
{
}

/// The page numbers of a buildable segment run from the page of its first byte to the page of
/// its last.
proof fn lemma_seg_pages(s: Segment)
    requires
        segment_buildable(s),
    ensures
        (s.virtual_base >> chosen_size(s).shift_spec()) <= (((s.virtual_base + s.size
            - 1) as u64) >> chosen_size(s).shift_spec()),
        seg_pages(s).len() == (((s.virtual_base + s.size - 1) as u64) >> chosen_size(s).shift_spec())
            - (s.virtual_base >> chosen_size(s).shift_spec()) + 1,
        (((s.virtual_base + s.size - 1) as u64) >> chosen_size(s).shift_spec()) < 0x1_0000_0000_0000,
{
    let t = chosen_size(s).shift_spec();
    let a = s.virtual_base;
    let b = (s.virtual_base + s.size - 1) as u64;
    lemma_shift_mono(a, b, t);
}

/// The `k`-th page of a buildable segment: below 2^48, and its physical address computable.
proof fn lemma_seg_page(s: Segment, k: int)
    requires
        segment_buildable(s),
        0 <= k < seg_pages(s).len(),
    ensures
        ({
            let t = chosen_size(s).shift_spec();
            let start = s.virtual_base >> t;
            let sub = ((start + k) as u64) << t;
            &&& start + k <= (((s.virtual_base + s.size - 1) as u64) >> t)
            &&& sub < 0x1_0000_0000_0000
            &&& sub <= s.virtual_base + s.size - 1
            &&& s.virtual_base > sub ==> s.virtual_base - sub <= s.physical_base
            &&& s.virtual_base <= sub ==> s.physical_base + sub - s.virtual_base <= u64::MAX
            &&& seg_pages(s)[k] == (sub, t, info_bits(page_info(s, chosen_size(s).level_spec(), sub)))
            &&& shift_of_level(chosen_size(s).level_spec()) == t
            &&& chosen_size(s).level_spec() != Level::PML4E
        }),
{
    let size = chosen_size(s);
    let t = size.shift_spec();
    let start = s.virtual_base >> t;
    let last = ((s.virtual_base + s.size - 1) as u64) >> t;
    lemma_seg_pages(s);
    let idx = (start + k) as u64;
    lemma_shift_back(idx, (s.virtual_base + s.size - 1) as u64, t);
    lemma_round_down(s.virtual_base, t);
    crate::paging::lemma_size_shifts();
    let sub = idx << t;
    // an index past the first gives an address past the first page's start
    if k > 0 {
        lemma_shift_strict(start, idx, (s.virtual_base + s.size - 1) as u64, t);
    }
    // an aligned base is the start of its first page
    assert(size.size_spec() == 1u64 << t);
    if s.virtual_base & 0xfff == 0 && t == 12 {
        assert(s.virtual_base & (((1u64 << t) - 1) as u64) == 0);
    }
    // only a first small page can start below the base, by the base's offset in its page
    if k == 0 {
        assert(sub == (s.virtual_base >> t) << t);
        if t == 12 {
            lemma_page_offset(s.virtual_base);
            assert(s.virtual_base - sub == s.virtual_base & 0xfff);
        } else {
            assert(seg_aligned(s, size));
            assert(sub == s.virtual_base);
        }
    } else {
        lemma_in_page(s.virtual_base, t);
        lemma_in_page((s.virtual_base + s.size - 1) as u64, t);
        lemma_shift_le(((s.virtual_base >> t) + 1) as u64, idx, t);
    }
}

/// An address lies above the start of its small page by its low twelve bits.
proof fn lemma_page_offset(v: u64)
    by (bit_vector)
    ensures
        v - ((v >> 12) << 12) == v & 0xfff,
{
}

/// Builds the page-map tables of a layout into a buffer of tables; the root is table 0.
pub struct Builder {
    base: RelativeBase,
    root: u64,
    placed: Ghost<Seq<PagePlacement>>,
}

impl Builder {
    /// The pages mapped so far, in the order they were placed.
    pub closed spec fn placed_pages(&self) -> Seq<PagePlacement> {
        self.placed@
    }

    /// The buffer of tables being filled.
    pub closed spec fn tables(&self) -> RelativeBase {
        self.base
    }

    pub closed spec fn inv(&self) -> bool {
        &&& self.base.shape()
        &&& self.root == 0
        &&& tables_inv(self.base.entries@, self.base.meta@, self.base.base, self.placed@, idle())
        &&& placed_ok(self.placed@)
        &&& self.base.meta@.len() <= 1 + 3 * self.placed@.len()
    }

    /// The table that entry `idx` of `table` points at; when the entry is empty, a new table is
    /// made and linked there.
    fn get_or_create(&mut self, table: u64, idx: u64, level: Level, Ghost(cur): Ghost<(u64, u64)>) -> (r: u64)
        requires
            old(self).base.shape(),
            tables_inv(
                old(self).base.entries@,
                old(self).base.meta@,
                old(self).base.base,
                old(self).placed@,
                cur,
            ),
            placed_ok(old(self).placed@),
            clear_of(old(self).placed@, cur),
            table < old(self).base.meta@.len(),
            idx < 512,
            old(self).base.meta@[table as int].0 < 3,
            level == level_of_depth(old(self).base.meta@[table as int].0),
            cur.1 < sh(old(self).base.meta@[table as int].0),
            old(self).base.meta@[table as int].1 * 512 + idx == (cur.0 >> sh(
                old(self).base.meta@[table as int].0,
            )) as int,
            old(self).base.base + 0x1000 * (old(self).base.meta@.len() + 1) <= 0x8000_0000_0000,
        ensures
            final(self).base.shape(),
            final(self).base.base == old(self).base.base,
            final(self).placed@ == old(self).placed@,
            final(self).root == old(self).root,
            tables_inv(
                final(self).base.entries@,
                final(self).base.meta@,
                final(self).base.base,
                final(self).placed@,
                cur,
            ),
            old(self).base.meta@.len() <= final(self).base.meta@.len() <= old(self).base.meta@.len()
                + 1,
            r < final(self).base.meta@.len(),
            final(self).base.meta@[r as int] == (
                old(self).base.meta@[table as int].0 + 1,
                old(self).base.meta@[table as int].1 * 512 + idx,
            ),
    {
        let ghost w = self.base.entries@;
        let ghost meta = self.base.meta@;
        let ghost b = self.base.base;
        let ghost placed = self.placed@;
        let ghost i = table as int;
        let ghost x = idx as int;
        let e = self.base.read(table, idx);
        let entry = Entry { entry: e };
        if entry.present() {
            proof {
                lemma_present_nonzero(e);
            }
            proof {
                lemma_present_is_ptr(w, meta, b, placed, cur, i, x);
            }
            let ghost j = choose|j: int|
                0 < j < meta.len() && word(w, i, x) == ptr_bits(phys_of(b, j)) && #[trigger] meta[j]
                    == (meta[i].0 + 1, meta[i].1 * 512 + x);
            proof {
                lemma_step(w, b, meta.len() as int, i, x, j);
                lemma_ptr_bits(phys_of(b, j));
            }
            let addr = entry.address(level);
            match self.base.to_virtual(addr) {
                Some(v) => v,
                None => {
                    proof {
                        assert(false);
                    }
                    0
                },
            }
        } else {
            proof {
                if e != 0 {
                    lemma_present_is_ptr(w, meta, b, placed, cur, i, x);
                    let j = choose|j: int|
                        0 < j < meta.len() && word(w, i, x) == ptr_bits(phys_of(b, j))
                            && #[trigger] meta[j] == (meta[i].0 + 1, meta[i].1 * 512 + x);
                    lemma_step(w, b, meta.len() as int, i, x, j);
                    lemma_ptr_bits(phys_of(b, j));
                }
            }
            let n = self.base.new_table(Ghost((meta[i].0 + 1, meta[i].1 * 512 + x)));
            let phys = match self.base.to_physical(n) {
                Some(p) => p,
                None => {
                    proof {
                        assert(false);
                    }
                    0
                },
            };
            let info = Info {
                page: false,
                write: true,
                execute: true,
                user: true,
                global: false,
                write_through: false,
                cache_disable: false,
                attribute_table: false,
                protection_key: 0,
                level: level,
                address: phys,
            };
            let link = Entry::from(info);
            proof {
                lemma_link_info(info);
                lemma_link_new_table(w, meta, b, placed, cur, i, x);
            }
            self.base.write(table, idx, link.entry);
            proof {
                assert(self.base.entries@ =~= (w + Seq::new(512, |q: int| 0u64)).update(
                    512 * i + x,
                    ptr_bits(phys_of(b, meta.len() as int)),
                ));
            }
            n
        }
    }

    /// Write the entry of the page in progress into entry `idx` of `table`, which is empty.
    fn write_page(&mut self, table: u64, info: Info, idx: u64, Ghost(q): Ghost<PagePlacement>)
        requires
            old(self).base.shape(),
            tables_inv(
                old(self).base.entries@,
                old(self).base.meta@,
                old(self).base.base,
                old(self).placed@,
                (q.0, q.1),
            ),
            placed_ok(old(self).placed@),
            clear_of(old(self).placed@, (q.0, q.1)),
            table < old(self).base.meta@.len(),
            idx < 512,
            old(self).base.meta@[table as int].0 >= 1,
            sh(old(self).base.meta@[table as int].0) == q.1,
            old(self).base.meta@[table as int].1 * 512 + idx == (q.0 >> q.1) as int,
            idx == (q.0 >> q.1) & 0x1ff,
            old(self).base.meta@[table as int].1 == (q.0 >> (q.1 + 9) as u64) as int,
            q.2 == info_bits(info),
            q.0 < 0x1_0000_0000_0000,
            q.1 == 30 || q.1 == 21 || q.1 == 12,
        ensures
            final(self).base.shape(),
            final(self).base.base == old(self).base.base,
            final(self).base.meta@ == old(self).base.meta@,
            final(self).root == old(self).root,
            final(self).placed@ == old(self).placed@.push(q),
            tables_inv(
                final(self).base.entries@,
                final(self).base.meta@,
                final(self).base.base,
                final(self).placed@,
                idle(),
            ),
            placed_ok(final(self).placed@),
    {
        let entry = Entry::from(info);
        proof {
            lemma_info_present(info);
            lemma_mask_mod(q.0 >> q.1);
            lemma_write_leaf(
                self.base.entries@,
                self.base.meta@,
                self.base.base,
                self.placed@,
                q,
                table as int,
                idx as int,
            );
        }
        self.base.write(table, idx, entry.entry);
        self.placed = Ghost(self.placed@.push(q));
    }

    /// Map the page that `info` describes at the virtual address `subframe`, making the
    /// tables on its path where they are missing.
    fn place_page(&mut self, info: Info, subframe: u64)
        requires
            old(self).inv(),
            info.level != Level::PML4E,
            subframe < 0x1_0000_0000_0000,
            clear_of(old(self).placed@, (subframe, shift_of_level(info.level))),
            old(self).base.base + 0x1000 * (old(self).base.meta@.len() + 3) <= 0x8000_0000_0000,
        ensures
            final(self).inv(),
            final(self).base.base == old(self).base.base,
            final(self).placed@ == old(self).placed@.push(
                (subframe, shift_of_level(info.level), info_bits(info)),
            ),
            final(self).base.meta@.len() <= old(self).base.meta@.len() + 3,
    {
        let ghost q = (subframe, shift_of_level(info.level), info_bits(info));
        let ghost cur = (q.0, q.1);
        proof {
            lemma_start_placement(
                self.base.entries@,
                self.base.meta@,
                self.base.base,
                self.placed@,
                cur,
            );
            lemma_index_split(subframe);
        }
        let pml4e_idx = (subframe >> 39u64) & 0x1ff;
        let pdpte_idx = (subframe >> 30u64) & 0x1ff;
        let pde_idx = (subframe >> 21u64) & 0x1ff;
        let pte_idx = (subframe >> 12u64) & 0x1ff;

        let pml4e_table = self.get_or_create(self.root, pml4e_idx, Level::PML4E, Ghost(cur));
        if info.level == Level::PDPTE {
            self.write_page(pml4e_table, info, pdpte_idx, Ghost(q));
            return ;
        }
        let pdpte_table = self.get_or_create(pml4e_table, pdpte_idx, Level::PDPTE, Ghost(cur));
        if info.level == Level::PDE {
            self.write_page(pdpte_table, info, pde_idx, Ghost(q));
            return ;
        }
        let pde_table = self.get_or_create(pdpte_table, pde_idx, Level::PDE, Ghost(cur));
        self.write_page(pde_table, info, pte_idx, Ghost(q));
    }

    /// The settings of the page of `segment` at the virtual address `subframe`.
    fn create_page(segment: &Segment, level: Level, subframe: u64) -> (r: Info)
        requires
            segment.virtual_base > subframe ==> segment.virtual_base - subframe
                <= segment.physical_base,
            segment.virtual_base <= subframe ==> segment.physical_base + subframe
                - segment.virtual_base <= u64::MAX,
        ensures
            r == page_info(*segment, level, subframe),
    {
        Info {
            page: true,
            write: segment.write(),
            execute: segment.execute(),
            user: segment.user(),
            global: segment.global(),
            write_through: false,
            cache_disable: false,
            attribute_table: false,
            protection_key: 0,
            level: level,
            address: segment.get_physical_subframe(subframe),
        }
    }

    /// Whether both bases of `segment` are aligned to `size`, and its physical end lies close
    /// enough below the next multiple of `size` that mapping the whole last page is fine.
    fn is_segment_aligned(segment: &Segment, size: PageSize) -> (r: bool)
        requires
            segment.physical_base + segment.size + 0x4000_0000 <= u64::MAX,
        ensures
            r == seg_aligned(*segment, size),
    {
        let start = segment.physical_base();
        let end = segment.physical_base() + segment.size();
        let aligned_end = align(end, size.get_size());
        is_aligned(start, size.get_size()) && is_aligned(segment.virtual_base(), size.get_size())
            && match size.get_next() {
            Some(next) => aligned_end - end < next.get_size(),
            None => true,
        }
    }

    /// Map every page of `size` that `segment` touches.
    fn generate_pages(&mut self, segment: &Segment, size: PageSize, Ghost(all): Ghost<Seq<PagePlacement>>)
        requires
            old(self).inv(),
            size == chosen_size(*segment),
            segment_buildable(*segment),
            (old(self).placed@ + seg_pages(*segment)).len() <= all.len(),
            all.subrange(0, (old(self).placed@ + seg_pages(*segment)).len() as int) == old(
                self,
            ).placed@ + seg_pages(*segment),
            pages_disjoint(all),
            old(self).base.base + 0x1000 * (1 + 3 * all.len()) <= 0x8000_0000_0000,
        ensures
            final(self).inv(),
            final(self).base.base == old(self).base.base,
            final(self).placed@ == old(self).placed@ + seg_pages(*segment),
    {
        let ghost pages = seg_pages(*segment);
        let ghost before = self.placed@;
        let ghost t = size.shift_spec();
        let shift = size.get_shift();
        let start = segment.virtual_base() >> shift;
        let end = (segment.virtual_base() + segment.size() - 1) >> shift;
        proof {
            lemma_seg_pages(*segment);
        }
        let mut idx = start;
        while idx <= end
            invariant
                self.inv(),
                self.base.base == old(self).base.base,
                shift == t,
                t == size.shift_spec(),
                size == chosen_size(*segment),
                segment_buildable(*segment),
                start == segment.virtual_base >> t,
                end == ((segment.virtual_base + segment.size - 1) as u64) >> t,
                start <= end,
                end < 0x1_0000_0000_0000,
                pages.len() == end - start + 1,
                pages == seg_pages(*segment),
                start <= idx <= end + 1,
                self.placed@ == before + pages.take(idx - start),
                (before + pages).len() <= all.len(),
                all.subrange(0, (before + pages).len() as int) == before + pages,
                pages_disjoint(all),
                self.base.base + 0x1000 * (1 + 3 * all.len()) <= 0x8000_0000_0000,
            decreases end + 1 - idx,
        {
            let ghost k = idx - start;
            let subframe = idx << shift;
            proof {
                lemma_seg_page(*segment, k);
                let p = before.len() + k;
                assert(all[p] == pages[k]) by {
                    assert(all.subrange(0, (before + pages).len() as int)[p] == (before + pages)[p]);
                }
                assert forall|m: int| 0 <= m < self.placed@.len() implies !pages_overlap(
                    #[trigger] self.placed@[m],
                    (subframe, t, 0u64),
                ) by {
                    assert(all.subrange(0, (before + pages).len() as int)[m] == (before
                        + pages)[m]);
                    assert(self.placed@[m] == all[m]);
                    assert(!pages_overlap(all[m], all[p]));
                }
            }
            let info = Builder::create_page(segment, size.get_level(), subframe);
            self.place_page(info, subframe);
            proof {
                assert(self.placed@ =~= before + pages.take(idx + 1 - start));
            }
            idx = idx + 1;
        }
        proof {
            assert(pages.take(idx - start) =~= pages);
        }
    }

    /// A builder over an empty buffer of tables; its first table is the root.
    pub fn new(base: RelativeBase) -> (r: Builder)
        requires
            base.shape(),
            base.table_count() == 0,
            base.base_addr() + 0x1000 <= 0x8000_0000_0000,
        ensures
            r.inv(),
            r.placed_pages() == Seq::<PagePlacement>::empty(),
            r.tables().base_addr() == base.base_addr(),
            r.tables().table_count() == 1,
    {
        let mut base = base;
        let root = base.new_table(Ghost((0int, 0int)));
        let r = Builder { base: base, root: root, placed: Ghost(Seq::empty()) };
        proof {
            let w = r.base.entries@;
            let meta = r.base.meta@;
            assert(w =~= Seq::new(512, |i: int| 0u64));
            assert forall|i: int, x: int| 0 <= i < meta.len() && 0 <= x < 512 implies #[trigger] entry_ok(
                w,
                meta,
                r.base.base,
                Seq::empty(),
                idle(),
                i,
                x,
            ) by {
                assert(word(w, i, x) == 0);
            }
        }
        r
    }

    /// Map every page of every segment of `layout`; give back the physical address of the
    /// root table.
    pub fn build(&mut self, layout: &Layout) -> (r: u64)
        requires
            old(self).inv(),
            forall|i: int|
                0 <= i < layout.segments_view().len() ==> segment_buildable(
                    #[trigger] layout.segments_view()[i],
                ),
            pages_disjoint(old(self).placed_pages() + layout_pages(layout.segments_view())),
            old(self).tables().base_addr() + 0x1000 * (1 + 3 * (old(self).placed_pages()
                + layout_pages(layout.segments_view())).len()) <= 0x8000_0000_0000,
        ensures
            final(self).inv(),
            r == old(self).tables().base_addr(),
            final(self).tables().base_addr() == old(self).tables().base_addr(),
            final(self).placed_pages() == old(self).placed_pages() + layout_pages(
                layout.segments_view(),
            ),
            final(self).tables().shape(),
            forall|k: int|
                0 <= k < final(self).placed_pages().len() ==> walk(
                    final(self).tables().words(),
                    final(self).tables().base_addr(),
                    #[trigger] final(self).placed_pages()[k].0,
                    final(self).placed_pages()[k].1,
                ) == Some(final(self).placed_pages()[k].2),
    {
        let segments = layout.segments();
        let ghost segs = layout.segments_view();
        let ghost before = self.placed@;
        let ghost all = before + layout_pages(segs);
        let mut i: usize = 0;
        while i < segments.len()
            invariant
                self.inv(),
                self.base.base == old(self).base.base,
                segments@ == segs,
                0 <= i <= segs.len(),
                self.placed@ == before + layout_pages(segs.take(i as int)),
                all == before + layout_pages(segs),
                forall|j: int| 0 <= j < segs.len() ==> segment_buildable(#[trigger] segs[j]),
                pages_disjoint(all),
                self.base.base + 0x1000 * (1 + 3 * all.len()) <= 0x8000_0000_0000,
            decreases segs.len() - i,
        {
            let segment = &segments[i];
            proof {
                lemma_layout_step(segs, i as int);
                lemma_layout_prefix(segs, i as int + 1);
                assert(segment_buildable(segs[i as int]));
                let front = before + layout_pages(segs.take(i as int + 1));
                assert(front =~= self.placed@ + seg_pages(*segment));
                assert(all.subrange(0, front.len() as int) =~= front);
            }
            if Builder::is_segment_aligned(segment, PageSize::Huge) {
                self.generate_pages(segment, PageSize::Huge, Ghost(all));
            } else if Builder::is_segment_aligned(segment, PageSize::Big) {
                self.generate_pages(segment, PageSize::Big, Ghost(all));
            } else {
                self.generate_pages(segment, PageSize::Page, Ghost(all));
            }
            proof {
                assert(self.placed@ =~= before + layout_pages(segs.take(i as int + 1)));
            }
            i = i + 1;
        }
        proof {
            assert(segs.take(i as int) =~= segs);
            assert forall|k: int| 0 <= k < self.placed@.len() implies walk(
                self.base.entries@,
                self.base.base,
                #[trigger] self.placed@[k].0,
                self.placed@[k].1,
            ) == Some(self.placed@[k].2) by {
                lemma_walk(self.base.entries@, self.base.meta@, self.base.base, self.placed@, idle(), k);
            }
        }
        match self.base.to_physical(self.root) {
            Some(address) => address,
            None => {
                proof {
                    assert(false);
                }
                0
            },
        }
    }

    /// Give back the buffer of tables.
    pub fn into_base(self) -> (r: RelativeBase)
        ensures
            r == self.tables(),
    {
        self.base
    }
}

/// The pages of the first `i + 1` segments are those of the first `i`, then those of
/// segment `i`.
proof fn lemma_layout_step(segs: Seq<Segment>, i: int)
    requires
        0 <= i < segs.len(),
    ensures
        layout_pages(segs.take(i + 1)) == layout_pages(segs.take(i)) + seg_pages(segs[i]),
{
    let s = segs.take(i + 1);
    assert(s.drop_last() =~= segs.take(i));
    assert(s.last() == segs[i]);
}

/// The pages of the first `j` segments begin the pages of all of them.
proof fn lemma_layout_prefix(segs: Seq<Segment>, j: int)
    requires
        0 <= j <= segs.len(),
    ensures
        layout_pages(segs.take(j)).len() <= layout_pages(segs).len(),
        layout_pages(segs).subrange(0, layout_pages(segs.take(j)).len() as int) == layout_pages(
            segs.take(j),
        ),
    decreases segs.len(),
{
    if j == segs.len() {
        assert(segs.take(j) =~= segs);
        assert(layout_pages(segs).subrange(0, layout_pages(segs).len() as int) =~= layout_pages(
            segs,
        ));
    } else {
        let d = segs.drop_last();
        lemma_layout_prefix(d, j);
        assert(d.take(j) =~= segs.take(j));
        let a = layout_pages(d);
        let b = layout_pages(d.take(j));
        assert(layout_pages(segs) == a + seg_pages(segs.last()));
        assert((a + seg_pages(segs.last())).subrange(0, b.len() as int) =~= a.subrange(
            0,
            b.len() as int,
        ));
    }
}

/// The 64-bit little-endian words of a byte buffer.
pub open spec fn buffer_words(b: Seq<u8>) -> Seq<u64> {
    Seq::new(b.len() / 8, |n: int| le_u64(b, 8 * n))
}

/// Build the page-map tables of `layout` into a buffer meant to be loaded at the physical
/// address `base`; give back the physical address of the root table and the buffer.
pub fn build_layout_relative(layout: &Layout, base: u64) -> (r: (u64, Vec<u8>))
    requires
        build_ok(layout.segments_view(), base),
    ensures
        r.0 == base,
        r.1@.len() % 0x1000 == 0,
        r.1@.len() >= 0x1000,
        forall|k: int|
            0 <= k < layout_pages(layout.segments_view()).len() ==> walk(
                buffer_words(r.1@),
                base,
                #[trigger] layout_pages(layout.segments_view())[k].0,
                layout_pages(layout.segments_view())[k].1,
            ) == Some(layout_pages(layout.segments_view())[k].2),
{
    let ghost pages = layout_pages(layout.segments_view());
    let tables = RelativeBase::new(base);
    let mut builder = Builder::new(tables);
    proof {
        assert(builder.placed_pages() + pages =~= pages);
    }
    let address = builder.build(layout);
    let tables = builder.into_base();
    let ghost words = tables.words();
    let buffer = tables.into_buffer();
    proof {
        assert(buffer_words(buffer@) =~= words);
        assert(builder.placed_pages() =~= pages);
        assert(buffer@.len() == 8 * (512 * tables.table_count()));
    }
    (address, buffer)
}

/// The virtual addresses that the pages of a segment cover: from the start of its first page to
/// the end of its last.
pub open spec fn cover_lo(s: Segment) -> int {
    let t = chosen_size(s).shift_spec();
    ((s.virtual_base >> t) << t) as int
}

pub open spec fn cover_hi(s: Segment) -> int {
    let t = chosen_size(s).shift_spec();
    ((((((s.virtual_base + s.size - 1) as u64) >> t) + 1) as u64) << t) as int
}

/// An address lies in the page its top bits name.
proof fn lemma_in_page(x: u64, t: u64)
    by (bit_vector)
    requires
        x < 0x1_0000_0000_0000,
        t == 12 || t == 21 || t == 30,
    ensures
        (x >> t) << t <= x,
        x < (((x >> t) + 1) as u64) << t,
        (x >> t) + 1 <= 0x1_0000_0000_0000u64 >> t,
{
}

/// Shifting keeps order for page numbers below 2^48.
proof fn lemma_shift_le(a: u64, b: u64, t: u64)
    by (bit_vector)
    requires
        a <= b,
        b <= 0x1_0000_0000_0000u64 >> t,
        t == 12 || t == 21 || t == 30,
    ensures
        a << t <= b << t,
        b << t <= 0x1_0000_0000_0000,
{
}

/// A page of a buildable segment lies inside the segment's cover.
proof fn lemma_page_in_cover(s: Segment, k: int)
    requires
        segment_buildable(s),
        0 <= k < seg_pages(s).len(),
    ensures
        ({
            let p = seg_pages(s)[k];
            let t = p.1;
            &&& t == chosen_size(s).shift_spec()
            &&& p.0 < 0x1_0000_0000_0000
            &&& p.0 >> t == (s.virtual_base >> t) + k
            &&& cover_lo(s) <= p.0
            &&& ((((p.0 >> t) + 1) as u64) << t) as int <= cover_hi(s)
            &&& cover_hi(s) <= 0x1_0000_0000_0000
        }),
{
    let t = chosen_size(s).shift_spec();
    let start = s.virtual_base >> t;
    let last = ((s.virtual_base + s.size - 1) as u64) >> t;
    lemma_seg_pages(s);
    lemma_seg_page(s, k);
    lemma_in_page((s.virtual_base + s.size - 1) as u64, t);
    let idx = (start + k) as u64;
    lemma_shift_back(idx, (s.virtual_base + s.size - 1) as u64, t);
    lemma_shift_le(start, idx, t);
    lemma_shift_le((idx + 1) as u64, (last + 1) as u64, t);
}

/// Pages of two segments whose covers do not meet share no address.
proof fn lemma_covers_apart(s: Segment, s2: Segment, k: int, k2: int)
    requires
        segment_buildable(s),
        segment_buildable(s2),
        0 <= k < seg_pages(s).len(),
        0 <= k2 < seg_pages(s2).len(),
        cover_hi(s) <= cover_lo(s2) || cover_hi(s2) <= cover_lo(s),
    ensures
        !pages_overlap(seg_pages(s)[k], seg_pages(s2)[k2]),
{
    let p = seg_pages(s)[k];
    let q = seg_pages(s2)[k2];
    lemma_page_in_cover(s, k);
    lemma_page_in_cover(s2, k2);
    lemma_seg_page(s, k);
    lemma_seg_page(s2, k2);
    lemma_in_page(p.0, p.1);
    lemma_in_page(q.0, q.1);
    lemma_in_page(q.0, p.1);
    lemma_in_page(p.0, q.1);
    // each page starts at its own page boundary
    assert(p.0 == (p.0 >> p.1) << p.1);
    assert(q.0 == (q.0 >> q.1) << q.1);
    if pages_overlap(p, q) {
        if p.1 >= q.1 {
            assert(q.0 >> p.1 == p.0 >> p.1);
            // the first byte of q lies in page p, so in both covers
            assert(cover_lo(s) <= q.0 < cover_hi(s));
            assert(cover_lo(s2) <= q.0 < cover_hi(s2));
        } else {
            assert(p.0 >> q.1 == q.0 >> q.1);
            assert(cover_lo(s2) <= p.0 < cover_hi(s2));
            assert(cover_lo(s) <= p.0 < cover_hi(s));
        }
    }
}

/// Every page of the first `i` segments is a page of one of them.
proof fn lemma_page_origin(segs: Seq<Segment>, i: int, a: int)
    requires
        0 <= i <= segs.len(),
        0 <= a < layout_pages(segs.take(i)).len(),
    ensures
        exists|j: int, k: int|
            0 <= j < i && 0 <= k < seg_pages(segs[j]).len() && layout_pages(segs.take(i))[a]
                == #[trigger] seg_pages(segs[j])[k],
    decreases i,
{
    if i == 0 {
        assert(segs.take(0) =~= Seq::<Segment>::empty());
    } else {
        lemma_layout_step(segs, i - 1);
        let prev = layout_pages(segs.take(i - 1));
        if a < prev.len() {
            lemma_page_origin(segs, i - 1, a);
            let (j, k) = choose|j: int, k: int|
                0 <= j < i - 1 && 0 <= k < seg_pages(segs[j]).len() && prev[a]
                    == #[trigger] seg_pages(segs[j])[k];
            assert(layout_pages(segs.take(i))[a] == seg_pages(segs[j])[k]);
        } else {
            let k = a - prev.len();
            assert(layout_pages(segs.take(i))[a] == seg_pages(segs[i - 1])[k]);
        }
    }
}

/// Pages of one segment share no address.
proof fn lemma_own_pages_apart(s: Segment, k: int, k2: int)
    requires
        segment_buildable(s),
        0 <= k < k2 < seg_pages(s).len(),
    ensures
        !pages_overlap(seg_pages(s)[k], seg_pages(s)[k2]),
{
    lemma_page_in_cover(s, k);
    lemma_page_in_cover(s, k2);
}

/// The pages of the first `i + 1` segments share no address when those of the first `i` share
/// none and the cover of segment `i` meets none of theirs.
proof fn lemma_disjoint_step(segs: Seq<Segment>, i: int)
    requires
        0 <= i < segs.len(),
        forall|j: int| 0 <= j <= i ==> segment_buildable(#[trigger] segs[j]),
        pages_disjoint(layout_pages(segs.take(i))),
        forall|j: int|
            0 <= j < i ==> cover_hi(#[trigger] segs[j]) <= cover_lo(segs[i]) || cover_hi(segs[i])
                <= cover_lo(segs[j]),
    ensures
        pages_disjoint(layout_pages(segs.take(i + 1))),
{
    lemma_layout_step(segs, i);
    let prev = layout_pages(segs.take(i));
    let own = seg_pages(segs[i]);
    let all = layout_pages(segs.take(i + 1));
    assert forall|a: int, b: int| 0 <= a < b < all.len() implies !pages_overlap(
        #[trigger] all[a],
        #[trigger] all[b],
    ) by {
        if b < prev.len() {
            assert(all[a] == prev[a] && all[b] == prev[b]);
        } else if a >= prev.len() {
            lemma_own_pages_apart(segs[i], a - prev.len(), b - prev.len());
        } else {
            lemma_page_origin(segs, i, a);
            let (j, k) = choose|j: int, k: int|
                0 <= j < i && 0 <= k < seg_pages(segs[j]).len() && prev[a]
                    == #[trigger] seg_pages(segs[j])[k];
            assert(all[a] == seg_pages(segs[j])[k]);
            assert(all[b] == own[b - prev.len()]);
            lemma_covers_apart(segs[j], segs[i], k, b - prev.len());
        }
    }
}

/// The cover of a buildable segment and the number of its pages.
fn seg_cover(s: &Segment) -> (r: (u64, u64, u64))
    requires
        segment_buildable(*s),
    ensures
        r.0 == cover_lo(*s),
        r.1 == cover_hi(*s),
        r.2 == seg_pages(*s).len(),
        r.2 <= 0x1_0000_0000_0000,
{
    let size = if Builder::is_segment_aligned(s, PageSize::Huge) {
        PageSize::Huge
    } else if Builder::is_segment_aligned(s, PageSize::Big) {
        PageSize::Big
    } else {
        PageSize::Page
    };
    let t = size.get_shift();
    let last_byte = s.virtual_base + s.size - 1;
    proof {
        lemma_seg_pages(*s);
        lemma_in_page(last_byte, t);
        lemma_shift_le(s.virtual_base >> t, (last_byte >> t) as u64, t);
    }
    let start = s.virtual_base >> t;
    let last = last_byte >> t;
    ((start << t), ((last + 1) << t), last - start + 1)
}

/// Rounding an address down to the start of its page keeps it in the same block of any larger
/// page size.
proof fn lemma_same_block(x: u64, t: u64, m: u64)
    by (bit_vector)
    requires
        x < 0x1_0000_0000_0000,
        t == 12 || t == 21 || t == 30,
        m == 12 || m == 21 || m == 30,
        t <= m,
    ensures
        ((x >> t) << t) >> m == x >> m,
{
}

/// A page number is at least that of any address at or above the start of its page, and at
/// most that of any address below the end of the last page.
proof fn lemma_page_number_between(x: u64, lo: u64, last: u64, t: u64)
    by (bit_vector)
    requires
        x < 0x1_0000_0000_0000,
        last < 0x1_0000_0000_0000u64 >> t,
        t == 12 || t == 21 || t == 30,
        (lo >> t) << t <= x,
        x < ((last + 1) as u64) << t,
    ensures
        lo >> t <= x >> t,
        x >> t <= last,
{
}

/// Two buildable segments whose covers meet have a page each that share an address.
proof fn lemma_covers_meet(s: Segment, s2: Segment) -> (r: (int, int))
    requires
        segment_buildable(s),
        segment_buildable(s2),
        !(cover_hi(s) <= cover_lo(s2) || cover_hi(s2) <= cover_lo(s)),
    ensures
        0 <= r.0 < seg_pages(s).len(),
        0 <= r.1 < seg_pages(s2).len(),
        pages_overlap(seg_pages(s)[r.0], seg_pages(s2)[r.1]),
{
    let t = chosen_size(s).shift_spec();
    let t2 = chosen_size(s2).shift_spec();
    lemma_seg_pages(s);
    lemma_seg_pages(s2);
    let last = ((s.virtual_base + s.size - 1) as u64) >> t;
    let last2 = ((s2.virtual_base + s2.size - 1) as u64) >> t2;
    lemma_in_page((s.virtual_base + s.size - 1) as u64, t);
    lemma_in_page((s2.virtual_base + s2.size - 1) as u64, t2);
    lemma_page_in_cover(s, 0);
    lemma_page_in_cover(s2, 0);
    lemma_in_page(seg_pages(s)[0].0, t);
    lemma_in_page(seg_pages(s2)[0].0, t2);
    assert(cover_lo(s) < cover_hi(s) && cover_lo(s2) < cover_hi(s2));
    let x: u64 = if cover_lo(s) >= cover_lo(s2) {
        cover_lo(s) as u64
    } else {
        cover_lo(s2) as u64
    };
    lemma_page_number_between(x, s.virtual_base, last, t);
    lemma_page_number_between(x, s2.virtual_base, last2, t2);
    let k = (x >> t) - (s.virtual_base >> t);
    let k2 = (x >> t2) - (s2.virtual_base >> t2);
    lemma_seg_page(s, k);
    lemma_seg_page(s2, k2);
    let p = seg_pages(s)[k];
    let q = seg_pages(s2)[k2];
    assert(p.0 == (x >> t) << t && p.1 == t);
    assert(q.0 == (x >> t2) << t2 && q.1 == t2);
    if t >= t2 {
        lemma_same_block(x, t, t);
        lemma_same_block(x, t2, t);
    } else {
        lemma_same_block(x, t, t2);
        lemma_same_block(x, t2, t2);
    }
    (k, k2)
}

/// Pages that share an address among the first `i` segments share it among all of them.
proof fn lemma_prefix_overlap(segs: Seq<Segment>, i: int)
    requires
        0 <= i <= segs.len(),
        !pages_disjoint(layout_pages(segs.take(i))),
    ensures
        !pages_disjoint(layout_pages(segs)),
{
    lemma_layout_prefix(segs, i);
    let pre = layout_pages(segs.take(i));
    let all = layout_pages(segs);
    let (a, b) = choose|a: int, b: int|
        0 <= a < b < pre.len() && pages_overlap(#[trigger] pre[a], #[trigger] pre[b]);
    assert(all[a] == all.subrange(0, pre.len() as int)[a]);
    assert(all[b] == all.subrange(0, pre.len() as int)[b]);
}

/// When the covers of segments `j < i` meet, the pages of the first `i + 1` segments do not
/// stay apart.
proof fn lemma_meeting_covers(segs: Seq<Segment>, j: int, i: int)
    requires
        0 <= j < i < segs.len(),
        segment_buildable(segs[j]),
        segment_buildable(segs[i]),
        !(cover_hi(segs[j]) <= cover_lo(segs[i]) || cover_hi(segs[i]) <= cover_lo(segs[j])),
    ensures
        !pages_disjoint(layout_pages(segs.take(i + 1))),
{
    let (k, k2) = lemma_covers_meet(segs[j], segs[i]);
    lemma_layout_step(segs, i);
    lemma_layout_step(segs, j);
    let head = segs.take(i);
    lemma_layout_prefix(head, j + 1);
    assert(head.take(j + 1) =~= segs.take(j + 1));
    let before = layout_pages(segs.take(j));
    let upto = layout_pages(segs.take(j + 1));
    let prev = layout_pages(head);
    let all = layout_pages(segs.take(i + 1));
    let a = before.len() + k;
    let b = prev.len() + k2;
    assert(upto[a] == seg_pages(segs[j])[k]);
    assert(prev[a] == prev.subrange(0, upto.len() as int)[a]);
    assert(all[a] == seg_pages(segs[j])[k]);
    assert(all[b] == seg_pages(segs[i])[k2]);
}

/// Whether the tables of `layout` can be built at `base`: the base is page-aligned, every
/// segment can be mapped, the pages of different segments cover disjoint addresses, and the
/// tables fit below 2^47. When it says yes, `build_layout_relative` may be called.
pub fn can_build(layout: &Layout, base: u64) -> (r: bool)
    ensures
        r == build_ok(layout.segments_view(), base),
{
    if !crate::constants::is_aligned(base, 0x1000) {
        return false;
    }
    let segs = layout.segments();
    let ghost sv = layout.segments_view();
    let mut total: u64 = 0;
    let mut i: usize = 0;
    proof {
        assert(sv.take(0) =~= Seq::<Segment>::empty());
    }
    while i < segs.len()
        invariant
            segs@ == sv,
            sv == layout.segments_view(),
            is_aligned_spec(base, 0x1000),
            0 <= i <= sv.len(),
            forall|j: int| 0 <= j < i ==> segment_buildable(#[trigger] sv[j]),
            total == layout_pages(sv.take(i as int)).len(),
            pages_disjoint(layout_pages(sv.take(i as int))),
        decreases sv.len() - i,
    {
        let s = segs[i];
        if s.size == 0 || s.virtual_base > 0x1_0000_0000_0000 || s.size > 0x1_0000_0000_0000
            - s.virtual_base || s.physical_base > u64::MAX - 0x4000_0000 || s.size > u64::MAX
            - 0x4000_0000 - s.physical_base || s.virtual_base & 0xfff > s.physical_base {
            proof {
                assert(!segment_buildable(sv[i as int]));
            }
            return false;
        }
        let (lo, hi, count) = seg_cover(&s);
        let mut j: usize = 0;
        while j < i
            invariant
                segs@ == sv,
                sv == layout.segments_view(),
                0 <= j <= i < sv.len(),
                s == sv[i as int],
                segment_buildable(s),
                forall|q: int| 0 <= q < i ==> segment_buildable(#[trigger] sv[q]),
                lo == cover_lo(s),
                hi == cover_hi(s),
                forall|q: int|
                    0 <= q < j ==> cover_hi(#[trigger] sv[q]) <= cover_lo(s) || cover_hi(s)
                        <= cover_lo(sv[q]),
            decreases i - j,
        {
            let (lo2, hi2, count2) = seg_cover(&segs[j]);
            if !(hi2 <= lo || hi <= lo2) {
                proof {
                    lemma_meeting_covers(sv, j as int, i as int);
                    lemma_prefix_overlap(sv, i as int + 1);
                }
                return false;
            }
            j = j + 1;
        }
        if count > u64::MAX - total {
            proof {
                lemma_layout_step(sv, i as int);
                lemma_layout_prefix(sv, i as int + 1);
            }
            return false;
        }
        proof {
            lemma_disjoint_step(sv, i as int);
            lemma_layout_step(sv, i as int);
        }
        total = total + count;
        i = i + 1;
    }
    proof {
        assert(sv.take(i as int) =~= sv);
    }
    // room for the root and three tables per page, below 2^47
    if total > 0x1000_0000_0000 || base > 0x8000_0000_0000 || 0x1000 * (1 + 3 * total) > 0x8000_0000_0000
        - base {
        return false;
    }
    true
}

} // verus!
