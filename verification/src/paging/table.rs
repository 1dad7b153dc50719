use vstd::prelude::*;
use crate::constants::{canonicalize, canonical_spec, PAGE_ADDR_MASK};

verus! {

/// The four levels of an x86-64 page map.
#[derive(Debug, Clone, Copy, PartialEq, Eq, Structural)]
pub enum Level {
    PML4E,
    PDPTE,
    PDE,
    PTE,
}

/// One 64-bit entry of a page-map table.
#[derive(Debug, Clone, Copy, PartialEq, Eq, Structural)]
pub struct Entry {
    pub entry: u64,
}

/// The settings from which an entry is built.
#[derive(Debug, Clone, Copy)]
pub struct Info {
    pub page: bool,
    pub write: bool,
    pub execute: bool,
    pub user: bool,
    pub global: bool,
    pub write_through: bool,
    pub cache_disable: bool,
    pub attribute_table: bool,
    pub protection_key: u8,
    pub level: Level,
    pub address: u64,
}

/// The 64-bit value of the entry built from `info`.
pub open spec fn info_bits(info: Info) -> u64 {
    ((info.protection_key as u64) << 59u64) | info.address | 1u64 | (if !info.execute {
        0x8000_0000_0000_0000u64
    } else {
        0
    }) | (if info.global {
        0x100u64
    } else {
        0
    }) | (if (info.level == Level::PTE && info.attribute_table) || info.page {
        0x80u64
    } else if info.attribute_table {
        0x1000u64
    } else {
        0
    }) | (if info.cache_disable {
        0x10u64
    } else {
        0
    }) | (if info.write_through {
        0x8u64
    } else {
        0
    }) | (if info.user {
        0x4u64
    } else {
        0
    }) | (if info.write {
        0x2u64
    } else {
        0
    })
}

impl Entry {
    /// Whether an entry at `level` maps a page rather than the next table.
    pub open spec fn is_page_spec(self, level: Level) -> bool {
        match level {
            Level::PML4E => false,
            Level::PTE => true,
            _ => self.entry & 0x80u64 != 0,
        }
    }

    /// Whether an entry at `level` maps a large page: a PDPT or PD entry with the page-size
    /// bit set. Bit 12 is then the attribute-table bit, not part of the address.
    pub open spec fn is_large_page_spec(self, level: Level) -> bool {
        match level {
            Level::PDPTE => self.entry & 0x80u64 != 0,
            Level::PDE => self.entry & 0x80u64 != 0,
            _ => false,
        }
    }

    pub open spec fn address_spec(self, level: Level) -> u64 {
        if self.is_large_page_spec(level) {
            canonical_spec(self.entry & PAGE_ADDR_MASK & !0x1000u64)
        } else {
            canonical_spec(self.entry & PAGE_ADDR_MASK)
        }
    }

    /// Build the entry that `info` describes.
    pub fn from(info: Info) -> (r: Entry)
        ensures
            r.entry == info_bits(info),
    {
        let entry = ((info.protection_key as u64) << 59u64) | info.address | 1u64 | (if !info.execute {
            0x8000_0000_0000_0000u64
        } else {
            0
        }) | (if info.global {
            0x100u64
        } else {
            0
        }) | (if (info.level == Level::PTE && info.attribute_table) || info.page {
            0x80u64
        } else if info.attribute_table {
            0x1000u64
        } else {
            0
        }) | (if info.cache_disable {
            0x10u64
        } else {
            0
        }) | (if info.write_through {
            0x8u64
        } else {
            0
        }) | (if info.user {
            0x4u64
        } else {
            0
        }) | (if info.write {
            0x2u64
        } else {
            0
        });
        Entry { entry: entry }
    }

    /// The physical address the entry points at, with bit 47 sign-extended; bit 12 is left
    /// out where it is the attribute-table bit of a large page.
    pub fn address(&self, level: Level) -> (r: u64)
        ensures
            r == self.address_spec(level),
    {
        let large = match level {
            Level::PDPTE => self.entry & 0x80u64 != 0,
            Level::PDE => self.entry & 0x80u64 != 0,
            _ => false,
        };
        if large {
            canonicalize(self.entry & PAGE_ADDR_MASK & !0x1000u64)
        } else {
            canonicalize(self.entry & PAGE_ADDR_MASK)
        }
    }

    pub fn present(&self) -> (r: bool)
        ensures
            r == (self.entry & 1u64 != 0),
    {
        self.entry & 1u64 != 0
    }

    pub fn write(&self) -> (r: bool)
        ensures
            r == (self.entry & 0x2u64 != 0),
    {
        self.entry & 0x2u64 != 0
    }

    pub fn user(&self) -> (r: bool)
        ensures
            r == (self.entry & 0x4u64 != 0),
    {
        self.entry & 0x4u64 != 0
    }

    pub fn execute(&self) -> (r: bool)
        ensures
            r == (self.entry & 0x8000_0000_0000_0000u64 == 0),
    {
        self.entry & 0x8000_0000_0000_0000u64 == 0
    }

    pub fn write_through(&self) -> (r: bool)
        ensures
            r == (self.entry & 0x8u64 != 0),
    {
        self.entry & 0x8u64 != 0
    }

    pub fn cache_disable(&self) -> (r: bool)
        ensures
            r == (self.entry & 0x10u64 != 0),
    {
        self.entry & 0x10u64 != 0
    }

    /// Whether an entry at `level` maps a page: a PML4 entry never, a PT entry always,
    /// and otherwise when the page-size bit is set.
    pub fn is_page(&self, level: Level) -> (r: bool)
        ensures
            r == self.is_page_spec(level),
    {
        match level {
            Level::PML4E => false,
            Level::PTE => true,
            _ => self.entry & 0x80u64 != 0,
        }
    }

    pub fn accessed(&self) -> (r: bool)
        ensures
            r == (self.entry & 0x20u64 != 0),
    {
        self.entry & 0x20u64 != 0
    }

    pub fn dirty(&self) -> (r: bool)
        ensures
            r == (self.entry & 0x40u64 != 0),
    {
        self.entry & 0x40u64 != 0
    }

    pub fn global(&self, level: Level) -> (r: bool)
        ensures
            r == (level != Level::PML4E && self.entry & 0x100u64 != 0),
    {
        if level == Level::PML4E {
            false
        } else {
            self.entry & 0x100u64 != 0
        }
    }

    pub fn attribute_table(&self, level: Level) -> (r: bool)
        ensures
            r == if level == Level::PTE {
                self.entry & 0x80u64 != 0
            } else if self.is_page_spec(level) {
                self.entry & 0x1000u64 != 0
            } else {
                false
            },
    {
        if level == Level::PTE {
            self.entry & 0x80u64 != 0
        } else if self.is_page(level) {
            self.entry & 0x1000u64 != 0
        } else {
            false
        }
    }

    pub fn protection_key(&self, level: Level) -> (r: u8)
        ensures
            r == if self.is_page_spec(level) {
                (self.entry >> 59u64) as u8
            } else {
                0
            },
    {
        if self.is_page(level) {
            (self.entry >> 59u64) as u8
        } else {
            0
        }
    }
}

/// Reading an entry gives back the settings it was built from, when the address is a
/// page-aligned address below bit 47 (with bit 12 clear where the entry maps a large page) and
/// the key fits in four bits.
pub proof fn lemma_entry_round_trip(info: Info)
    requires
        info.address & 0xfff == 0,
        info.address < 0x8000_0000_0000u64,
        info.protection_key < 16,
        info.level != Level::PML4E,
        !info.attribute_table,
        info.page && info.level != Level::PTE ==> info.address & 0x1000 == 0,
    ensures
        ({
            let e = Entry { entry: info_bits(info) };
            &&& e.entry & 1u64 != 0
            &&& (e.entry & 0x2u64 != 0) == info.write
            &&& (e.entry & 0x4u64 != 0) == info.user
            &&& (e.entry & 0x8u64 != 0) == info.write_through
            &&& (e.entry & 0x10u64 != 0) == info.cache_disable
            &&& (e.entry & 0x100u64 != 0) == info.global
            &&& (e.entry & 0x8000_0000_0000_0000u64 == 0) == info.execute
            &&& info.level != Level::PTE ==> e.is_page_spec(info.level) == info.page
            &&& e.address_spec(info.level) == info.address
        }),
{
    let a = info.address;
    let k = info.protection_key as u64;
    let v = info_bits(info);
    let x = if !info.execute { 0x8000_0000_0000_0000u64 } else { 0 };
    let g = if info.global { 0x100u64 } else { 0 };
    let p = if info.page { 0x80u64 } else { 0 };
    let cd = if info.cache_disable { 0x10u64 } else { 0 };
    let wt = if info.write_through { 0x8u64 } else { 0 };
    let u = if info.user { 0x4u64 } else { 0 };
    let w = if info.write { 0x2u64 } else { 0 };
    assert(v == (k << 59u64) | a | 1u64 | x | g | p | cd | wt | u | w);
    assert(v & 1u64 != 0) by (bit_vector)
        requires
            v == (k << 59u64) | a | 1u64 | x | g | p | cd | wt | u | w,
    ;
    assert((v & 0x2u64 != 0) == (w != 0) && (v & 0x4u64 != 0) == (u != 0) && (v & 0x8u64 != 0)
        == (wt != 0) && (v & 0x10u64 != 0) == (cd != 0) && (v & 0x100u64 != 0) == (g != 0) && (v
        & 0x80u64 != 0) == (p != 0) && (v & 0x8000_0000_0000_0000u64 == 0) == (x == 0))
        by (bit_vector)
        requires
            v == (k << 59u64) | a | 1u64 | x | g | p | cd | wt | u | w,
            a & 0xfff == 0,
            a < 0x8000_0000_0000u64,
            k < 16,
            x == 0 || x == 0x8000_0000_0000_0000u64,
            g == 0 || g == 0x100u64,
            p == 0 || p == 0x80u64,
            cd == 0 || cd == 0x10u64,
            wt == 0 || wt == 0x8u64,
            u == 0 || u == 0x4u64,
            w == 0 || w == 0x2u64,
    ;
    assert(v & PAGE_ADDR_MASK & !0x1000u64 == a & !0x1000u64 && v & PAGE_ADDR_MASK == a)
        by (bit_vector)
        requires
            v == (k << 59u64) | a | 1u64 | x | g | p | cd | wt | u | w,
            a & 0xfff == 0,
            a < 0x8000_0000_0000u64,
            k < 16,
            x == 0 || x == 0x8000_0000_0000_0000u64,
            g == 0 || g == 0x100u64,
            p == 0 || p == 0x80u64,
            cd == 0 || cd == 0x10u64,
            wt == 0 || wt == 0x8u64,
            u == 0 || u == 0x4u64,
            w == 0 || w == 0x2u64,
    ;
    assert(canonical_spec(a) == a) by (bit_vector)
        requires
            a < 0x8000_0000_0000u64,
    ;
    assert(canonical_spec(a & !0x1000u64) == a & !0x1000u64) by (bit_vector)
        requires
            a < 0x8000_0000_0000u64,
    ;
    assert(a & 0x1000 == 0 ==> a & !0x1000u64 == a) by (bit_vector);
}

/// One page-map table: 512 entries.
#[derive(Debug)]
pub struct Table {
    entries: Vec<Entry>,
}

impl View for Table {
    type V = Seq<Entry>;

    closed spec fn view(&self) -> Seq<Entry> {
        self.entries@
    }
}

impl Table {
    /// A table whose entries are all zero.
    pub fn new() -> (r: Table)
        ensures
            r@.len() == 512,
            forall|i: int| 0 <= i < 512 ==> (#[trigger] r@[i]).entry == 0,
    {
        let mut entries: Vec<Entry> = Vec::new();
        let mut i: usize = 0;
        while i < 512
            invariant
                0 <= i <= 512,
                entries@.len() == i,
                forall|j: int| 0 <= j < i ==> (#[trigger] entries@[j]).entry == 0,
            decreases 512 - i,
        {
            entries.push(Entry { entry: 0 });
            i = i + 1;
        }
        Table { entries: entries }
    }

    /// Store `entry` at `idx`, giving back the entry that was there.
    pub fn write(&mut self, entry: Entry, idx: usize) -> (r: Entry)
        requires
            idx < old(self)@.len(),
        ensures
            r == old(self)@[idx as int],
            final(self)@ == old(self)@.update(idx as int, entry),
    {
        let old_entry = self.entries[idx];
        self.entries.set(idx, entry);
        old_entry
    }

    /// The entry at `idx`.
    pub fn read(&self, idx: usize) -> (r: Entry)
        requires
            idx < self@.len(),
        ensures
            r == self@[idx as int],
    {
        self.entries[idx]
    }
}

} // verus!
