pub mod table;
pub mod segment;
pub mod layout;
pub mod builder;

use vstd::prelude::*;
use vstd::std_specs::bits::{u64_trailing_zeros, axiom_u64_trailing_zeros};

pub use table::Level;

verus! {

/// The span of one entry of a page-map table: 512 gigabytes, 1 gigabyte, 2 megabytes.
#[derive(Debug, Clone, Copy, PartialEq, Eq, Structural)]
pub enum FrameSize {
    Giant,
    Huge,
    Big,
}

/// The size of a page that an entry maps directly: 1 gigabyte, 2 megabytes, 4 kilobytes.
#[derive(Debug, Clone, Copy, PartialEq, Eq, Structural)]
pub enum PageSize {
    Huge,
    Big,
    Page,
}

impl FrameSize {
    pub open spec fn size_spec(self) -> u64 {
        match self {
            FrameSize::Giant => 0x8000000000,
            FrameSize::Huge => 0x40000000,
            FrameSize::Big => 0x200000,
        }
    }

    pub open spec fn shift_spec(self) -> u64 {
        match self {
            FrameSize::Giant => 39,
            FrameSize::Huge => 30,
            FrameSize::Big => 21,
        }
    }

    /// Bytes spanned by a frame of this size.
    pub fn get_size(self) -> (r: u64)
        ensures
            r == self.size_spec(),
    {
        match self {
            FrameSize::Giant => 0x8000000000,
            FrameSize::Huge => 0x40000000,
            FrameSize::Big => 0x200000,
        }
    }

    /// Base-two logarithm of the size.
    pub fn get_shift(self) -> (r: u64)
        ensures
            r == self.shift_spec(),
            self.size_spec() == 1u64 << r,
    {
        let size = self.get_size();
        proof {
            lemma_size_shifts();
            lemma_trailing_zeros_of_power(size, self.shift_spec());
        }
        size.trailing_zeros() as u64
    }

    /// The page size that one entry of a frame of this size maps.
    pub fn get_pagesize(self) -> (r: PageSize)
        ensures
            r.size_spec() * 512 == self.size_spec(),
            r == match self {
                FrameSize::Giant => PageSize::Huge,
                FrameSize::Huge => PageSize::Big,
                FrameSize::Big => PageSize::Page,
            },
    {
        match self {
            FrameSize::Giant => PageSize::Huge,
            FrameSize::Huge => PageSize::Big,
            FrameSize::Big => PageSize::Page,
        }
    }

    /// The next smaller frame size, if any.
    pub fn get_next(self) -> (r: Option<FrameSize>)
        ensures
            r == match self {
                FrameSize::Giant => Some(FrameSize::Huge),
                FrameSize::Huge => Some(FrameSize::Big),
                FrameSize::Big => None::<FrameSize>,
            },
            r matches Some(n) ==> n.size_spec() * 512 == self.size_spec(),
    {
        match self {
            FrameSize::Giant => Some(FrameSize::Huge),
            FrameSize::Huge => Some(FrameSize::Big),
            FrameSize::Big => None,
        }
    }
}

impl PageSize {
    pub open spec fn size_spec(self) -> u64 {
        match self {
            PageSize::Huge => 0x40000000,
            PageSize::Big => 0x200000,
            PageSize::Page => 0x1000,
        }
    }

    pub open spec fn shift_spec(self) -> u64 {
        match self {
            PageSize::Huge => 30,
            PageSize::Big => 21,
            PageSize::Page => 12,
        }
    }

    pub open spec fn level_spec(self) -> Level {
        match self {
            PageSize::Huge => Level::PDPTE,
            PageSize::Big => Level::PDE,
            PageSize::Page => Level::PTE,
        }
    }

    pub open spec fn next_spec(self) -> Option<PageSize> {
        match self {
            PageSize::Huge => Some(PageSize::Big),
            PageSize::Big => Some(PageSize::Page),
            PageSize::Page => None,
        }
    }

    /// Bytes in a page of this size.
    pub fn get_size(self) -> (r: u64)
        ensures
            r == self.size_spec(),
    {
        match self {
            PageSize::Huge => 0x40000000,
            PageSize::Big => 0x200000,
            PageSize::Page => 0x1000,
        }
    }

    /// Base-two logarithm of the size.
    pub fn get_shift(self) -> (r: u64)
        ensures
            r == self.shift_spec(),
            self.size_spec() == 1u64 << r,
    {
        let size = self.get_size();
        proof {
            lemma_size_shifts();
            lemma_trailing_zeros_of_power(size, self.shift_spec());
        }
        size.trailing_zeros() as u64
    }

    /// The table level whose entries map pages of this size.
    pub fn get_level(self) -> (r: Level)
        ensures
            r == self.level_spec(),
    {
        match self {
            PageSize::Huge => Level::PDPTE,
            PageSize::Big => Level::PDE,
            PageSize::Page => Level::PTE,
        }
    }

    /// The next smaller page size, if any.
    pub fn get_next(self) -> (r: Option<PageSize>)
        ensures
            r == self.next_spec(),
            r matches Some(n) ==> n.size_spec() * 512 == self.size_spec(),
    {
        match self {
            PageSize::Huge => Some(PageSize::Big),
            PageSize::Big => Some(PageSize::Page),
            PageSize::Page => None,
        }
    }

    /// The frame size one of whose entries is a page of this size.
    pub fn get_framesize(self) -> (r: FrameSize)
        ensures
            self.size_spec() * 512 == r.size_spec(),
            r == match self {
                PageSize::Huge => FrameSize::Giant,
                PageSize::Big => FrameSize::Huge,
                PageSize::Page => FrameSize::Big,
            },
    {
        match self {
            PageSize::Huge => FrameSize::Giant,
            PageSize::Big => FrameSize::Huge,
            PageSize::Page => FrameSize::Big,
        }
    }
}

/// The sizes of pages and frames are the powers of two of their shifts.
pub proof fn lemma_size_shifts()
    by (bit_vector)
    ensures
        0x8000000000u64 == 1u64 << 39u64,
        0x40000000u64 == 1u64 << 30u64,
        0x200000u64 == 1u64 << 21u64,
        0x1000u64 == 1u64 << 12u64,
{
}

/// A single set bit at position `k` has `k` trailing zeros.
proof fn lemma_trailing_zeros_of_power(x: u64, k: u64)
    requires
        k < 64,
        x == 1u64 << k,
    ensures
        u64_trailing_zeros(x) == k,
{
    axiom_u64_trailing_zeros(x);
    let t = u64_trailing_zeros(x) as u64;
    assert(x != 0) by (bit_vector)
        requires
            k < 64,
            x == 1u64 << k,
    ;
    assert(t < 64);
    assert((x >> t) & 1u64 == 1u64);
    assert(t == k) by (bit_vector)
        requires
            k < 64,
            t < 64,
            x == 1u64 << k,
            (x >> t) & 1u64 == 1u64,
    ;
}

} // verus!
