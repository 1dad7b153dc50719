use vstd::prelude::*;
use crate::constants::{align, align_back, align_spec, align_back_spec, is_aligned_spec};

verus! {

/// The low 48 bits: the part of a virtual address that the page map translates.
pub open spec fn canonical_part(va: u64) -> u64 {
    va & 0xffff_ffff_ffffu64
}

/// A uniform linear address transformation: `size` bytes at `virtual_base` map to
/// `physical_base`, with the given access settings.
#[derive(Debug, Clone, Copy, PartialEq, Eq, Structural)]
pub struct Segment {
    pub physical_base: u64,
    pub virtual_base: u64,
    pub size: u64,
    pub allocate: bool,
    pub write: bool,
    pub user: bool,
    pub execute: bool,
    pub global: bool,
}

/// Bytes in the flat form of a segment: three 64-bit little-endian words and a flag byte.
pub const RAW_SEGMENT_SIZE: usize = 25;

pub fn raw_segment_size() -> (r: usize)
    ensures
        r == 25,
{
    RAW_SEGMENT_SIZE
}

/// The page-aligned span of virtual addresses that a segment covers: its base rounded down
/// and its end rounded up to 4 kilobytes.
pub open spec fn page_span_start(s: Segment) -> int {
    align_back_spec(s.virtual_base, 0x1000) as int
}

pub open spec fn page_span_end(s: Segment) -> int {
    align_spec((s.virtual_base + s.size) as u64, 0x1000) as int
}

/// Two segments overlap when their page-aligned virtual spans intersect.
pub open spec fn segments_overlap(a: Segment, b: Segment) -> bool {
    !(page_span_end(a) <= page_span_start(b) || page_span_start(a) >= page_span_end(b))
}

/// The little-endian value of the eight bytes of `s` from `off`.
pub open spec fn le_u64(s: Seq<u8>, off: int) -> u64 {
    (s[off] as u64) | ((s[off + 1] as u64) << 8u64) | ((s[off + 2] as u64) << 16u64) | ((s[off
        + 3] as u64) << 24u64) | ((s[off + 4] as u64) << 32u64) | ((s[off + 5] as u64) << 40u64)
        | ((s[off + 6] as u64) << 48u64) | ((s[off + 7] as u64) << 56u64)
}

/// The eight little-endian bytes of `x`.
pub open spec fn le_bytes(x: u64) -> Seq<u8> {
    seq![
        (x & 0xff) as u8,
        ((x >> 8u64) & 0xff) as u8,
        ((x >> 16u64) & 0xff) as u8,
        ((x >> 24u64) & 0xff) as u8,
        ((x >> 32u64) & 0xff) as u8,
        ((x >> 40u64) & 0xff) as u8,
        ((x >> 48u64) & 0xff) as u8,
        ((x >> 56u64) & 0xff) as u8,
    ]
}

/// The flag byte of a segment: write, user, execute, global in bits 0 to 3.
pub open spec fn flag_byte(s: Segment) -> u8 {
    ((if s.write { 1u8 } else { 0u8 }) | (if s.user { 2u8 } else { 0u8 }) | (if s.execute {
        4u8
    } else {
        0u8
    }) | (if s.global { 8u8 } else { 0u8 })) as u8
}

/// The flat form of a segment.
pub open spec fn raw_bytes(s: Segment) -> Seq<u8> {
    le_bytes(s.physical_base) + le_bytes(s.virtual_base) + le_bytes(s.size) + seq![flag_byte(s)]
}

/// The segment that a flat form describes.
pub open spec fn segment_of_raw(raw: Seq<u8>) -> Segment {
    let flags = raw[24];
    Segment {
        physical_base: le_u64(raw, 0),
        virtual_base: le_u64(raw, 8),
        size: le_u64(raw, 16),
        allocate: true,
        write: flags & 1u8 == 1u8,
        user: flags & 2u8 == 2u8,
        execute: flags & 4u8 == 4u8,
        global: flags & 8u8 == 8u8,
    }
}

pub(crate) fn read_le_u64(raw: &[u8], off: usize) -> (r: u64)
    requires
        off + 8 <= raw@.len(),
    ensures
        r == le_u64(raw@, off as int),
{
    (raw[off] as u64) | ((raw[off + 1] as u64) << 8u64) | ((raw[off + 2] as u64) << 16u64) | ((
    raw[off + 3] as u64) << 24u64) | ((raw[off + 4] as u64) << 32u64) | ((raw[off + 5] as u64)
        << 40u64) | ((raw[off + 6] as u64) << 48u64) | ((raw[off + 7] as u64) << 56u64)
}

fn push_le_u64(out: &mut Vec<u8>, x: u64)
    ensures
        final(out)@ == old(out)@ + le_bytes(x),
{
    out.push((x & 0xff) as u8);
    out.push(((x >> 8u64) & 0xff) as u8);
    out.push(((x >> 16u64) & 0xff) as u8);
    out.push(((x >> 24u64) & 0xff) as u8);
    out.push(((x >> 32u64) & 0xff) as u8);
    out.push(((x >> 40u64) & 0xff) as u8);
    out.push(((x >> 48u64) & 0xff) as u8);
    out.push(((x >> 56u64) & 0xff) as u8);
    proof {
        assert(final(out)@ =~= old(out)@ + le_bytes(x));
    }
}

/// Reading back the little-endian bytes of a word gives the word.
pub proof fn lemma_le_round_trip(x: u64)
    ensures
        le_u64(le_bytes(x), 0) == x,
{
    let b = le_bytes(x);
    let b0 = b[0];
    let b1 = b[1];
    let b2 = b[2];
    let b3 = b[3];
    let b4 = b[4];
    let b5 = b[5];
    let b6 = b[6];
    let b7 = b[7];
    assert(le_u64(b, 0) == (b0 as u64) | ((b1 as u64) << 8u64) | ((b2 as u64) << 16u64) | ((
    b3 as u64) << 24u64) | ((b4 as u64) << 32u64) | ((b5 as u64) << 40u64) | ((b6 as u64)
        << 48u64) | ((b7 as u64) << 56u64));
    assert((b0 as u64) | ((b1 as u64) << 8u64) | ((b2 as u64) << 16u64) | ((b3 as u64) << 24u64)
        | ((b4 as u64) << 32u64) | ((b5 as u64) << 40u64) | ((b6 as u64) << 48u64) | ((
    b7 as u64) << 56u64) == x) by (bit_vector)
        requires
            b0 == (x & 0xff) as u8,
            b1 == ((x >> 8u64) & 0xff) as u8,
            b2 == ((x >> 16u64) & 0xff) as u8,
            b3 == ((x >> 24u64) & 0xff) as u8,
            b4 == ((x >> 32u64) & 0xff) as u8,
            b5 == ((x >> 40u64) & 0xff) as u8,
            b6 == ((x >> 48u64) & 0xff) as u8,
            b7 == ((x >> 56u64) & 0xff) as u8,
    ;
}

/// A segment read back from its flat form has the same addresses, size and settings.
pub proof fn lemma_raw_round_trip(s: Segment)
    ensures
        segment_of_raw(raw_bytes(s)) == (Segment { allocate: true, ..s }),
{
    let raw = raw_bytes(s);
    lemma_le_round_trip(s.physical_base);
    lemma_le_round_trip(s.virtual_base);
    lemma_le_round_trip(s.size);
    assert(raw.subrange(0, 8) =~= le_bytes(s.physical_base));
    assert(le_u64(raw, 0) == le_u64(le_bytes(s.physical_base), 0));
    assert(le_u64(raw, 8) == le_u64(le_bytes(s.virtual_base), 0));
    assert(le_u64(raw, 16) == le_u64(le_bytes(s.size), 0));
    let f = flag_byte(s);
    assert(raw[24] == f);
    let w = if s.write { 1u8 } else { 0u8 };
    let u = if s.user { 2u8 } else { 0u8 };
    let x = if s.execute { 4u8 } else { 0u8 };
    let g = if s.global { 8u8 } else { 0u8 };
    assert(f == w | u | x | g);
    assert((f & 1u8 == 1u8) == (w == 1u8) && (f & 2u8 == 2u8) == (u == 2u8) && (f & 4u8 == 4u8)
        == (x == 4u8) && (f & 8u8 == 8u8) == (g == 8u8)) by (bit_vector)
        requires
            f == w | u | x | g,
            w == 0u8 || w == 1u8,
            u == 0u8 || u == 2u8,
            x == 0u8 || x == 4u8,
            g == 0u8 || g == 8u8,
    ;
}

impl Segment {
    pub open spec fn dummy_range_spec(virtual_address: u64, size: u64) -> Segment {
        Segment {
            physical_base: 0,
            virtual_base: canonical_part(virtual_address),
            size,
            allocate: false,
            write: false,
            user: false,
            execute: false,
            global: false,
        }
    }

    pub open spec fn dummy_spec(virtual_address: u64) -> Segment {
        Segment::dummy_range_spec(virtual_address, 0)
    }

    /// A segment of `size` bytes at `virtual_base` backed by `physical_base`; only the low 48
    /// bits of the virtual base are kept.
    pub fn new(
        physical_base: u64,
        virtual_base: u64,
        size: u64,
        write: bool,
        user: bool,
        execute: bool,
        global: bool,
    ) -> (r: Segment)
        requires
            is_aligned_spec(physical_base, 0x1000),
            is_aligned_spec(virtual_base, 0x1000),
        ensures
            r == (Segment {
                physical_base,
                virtual_base: canonical_part(virtual_base),
                size,
                allocate: true,
                write,
                user,
                execute,
                global,
            }),
    {
        Segment {
            physical_base: physical_base,
            virtual_base: virtual_base & 0xffff_ffff_ffffu64,
            allocate: true,
            size: size,
            write: write,
            user: user,
            execute: execute,
            global: global,
        }
    }

    /// A placeholder segment over `[virtual_address, virtual_address + size)`, used to look
    /// up the segments that overlap a range.
    pub fn dummy_range(virtual_address: u64, size: u64) -> (r: Segment)
        ensures
            r == (Segment {
                physical_base: 0,
                virtual_base: canonical_part(virtual_address),
                size,
                allocate: false,
                write: false,
                user: false,
                execute: false,
                global: false,
            }),
    {
        Segment {
            physical_base: 0,
            virtual_base: virtual_address & 0xffff_ffff_ffffu64,
            allocate: false,
            size: size,
            write: false,
            user: false,
            execute: false,
            global: false,
        }
    }

    /// A placeholder segment of size zero at `virtual_address`.
    pub fn dummy(virtual_address: u64) -> (r: Segment)
        ensures
            r == (Segment {
                physical_base: 0,
                virtual_base: canonical_part(virtual_address),
                size: 0,
                allocate: false,
                write: false,
                user: false,
                execute: false,
                global: false,
            }),
    {
        Segment::dummy_range(virtual_address, 0)
    }

    pub fn physical_base(&self) -> (r: u64)
        ensures
            r == self.physical_base,
    {
        self.physical_base
    }

    pub fn virtual_base(&self) -> (r: u64)
        ensures
            r == self.virtual_base,
    {
        self.virtual_base
    }

    pub fn size(&self) -> (r: u64)
        ensures
            r == self.size,
    {
        self.size
    }

    pub fn write(&self) -> (r: bool)
        ensures
            r == self.write,
    {
        self.write
    }

    pub fn user(&self) -> (r: bool)
        ensures
            r == self.user,
    {
        self.user
    }

    pub fn execute(&self) -> (r: bool)
        ensures
            r == self.execute,
    {
        self.execute
    }

    pub fn global(&self) -> (r: bool)
        ensures
            r == self.global,
    {
        self.global
    }

    /// Read a segment from its flat form.
    pub fn from_raw(raw: &[u8]) -> (r: Segment)
        requires
            raw@.len() == 25,
        ensures
            r == segment_of_raw(raw@),
    {
        let flags = raw[24];
        Segment {
            physical_base: read_le_u64(raw, 0),
            virtual_base: read_le_u64(raw, 8),
            allocate: true,
            size: read_le_u64(raw, 16),
            write: (flags & 1u8) == 1u8,
            user: (flags & 2u8) == 2u8,
            execute: (flags & 4u8) == 4u8,
            global: (flags & 8u8) == 8u8,
        }
    }

    /// The flat form of the segment.
    pub fn get_raw(&self) -> (r: Vec<u8>)
        ensures
            r@ == raw_bytes(*self),
    {
        let flags: u8 = (if self.write {
            1u8
        } else {
            0u8
        }) | (if self.user {
            2u8
        } else {
            0u8
        }) | (if self.execute {
            4u8
        } else {
            0u8
        }) | (if self.global {
            8u8
        } else {
            0u8
        });
        let mut out: Vec<u8> = Vec::new();
        push_le_u64(&mut out, self.physical_base);
        push_le_u64(&mut out, self.virtual_base);
        push_le_u64(&mut out, self.size);
        out.push(flags);
        proof {
            assert(out@ =~= raw_bytes(*self));
        }
        out
    }

    /// The physical address that backs the virtual address `subframe`: the segment maps
    /// addresses linearly, so `subframe` lies as far from the physical base as it lies from the
    /// virtual base, on the same side.
    pub fn get_physical_subframe(&self, subframe: u64) -> (r: u64)
        requires
            self.virtual_base > subframe ==> self.virtual_base - subframe <= self.physical_base,
            self.virtual_base <= subframe ==> self.physical_base + subframe - self.virtual_base
                <= u64::MAX,
        ensures
            r == self.physical_base + subframe - self.virtual_base,
    {
        if self.virtual_base > subframe {
            self.physical_base - (self.virtual_base - subframe)
        } else {
            self.physical_base + (subframe - self.virtual_base)
        }
    }

    /// Whether `other` has the same access settings.
    pub fn same_settings(&self, other: &Segment) -> (r: bool)
        ensures
            r == (other.write == self.write && other.user == self.user && other.execute
                == self.execute && other.global == self.global),
    {
        other.write == self.write && other.user == self.user && other.execute == self.execute
            && other.global == self.global
    }

    /// Whether the page-aligned virtual spans of the two segments intersect.
    pub fn overlaps(&self, other: &Segment) -> (r: bool)
        requires
            self.virtual_base + self.size + 0x1000 <= u64::MAX,
            other.virtual_base + other.size + 0x1000 <= u64::MAX,
        ensures
            r == segments_overlap(*self, *other),
    {
        !(align(self.virtual_base + self.size, 0x1000) <= align_back(other.virtual_base, 0x1000)
            || align_back(self.virtual_base, 0x1000) >= align(
            other.virtual_base + other.size,
            0x1000,
        ))
    }
}

} // verus!
