use vstd::prelude::*;
use vstd::string::*;

verus! {

pub const RESERVE_SLAB_SIZE: usize = 0x1000;
pub const RESERVE_MAGIC: u64 = 15297541685404970074;
pub const VGA_BUFFER_WIDTH: usize = 80;
pub const VGA_BUFFER_HEIGHT: usize = 25;
pub const VGA_BUFFER_ADDR: usize = 0xb8000;
pub const SIMPLE_MAGIC: u64 = 4128539181889869321;
pub const STACK_SIZE: usize = 0xf000;
pub const SYSENTER_CS_MSR: u32 = 0x174;
pub const SYSENTER_EIP_MSR: u32 = 0x176;
pub const SYSENTER_ESP_MSR: u32 = 0x175;
pub const STAR_MSR: u32 = 0xC0000081;
pub const LSTAR_MSR: u32 = 0xC0000082;
pub const FMASK_MSR: u32 = 0xC0000084;
pub const EFER_MSR: u32 = 0xC0000080;
pub const CORE_CS: u16 = 0x08;
pub const CORE_DS: u16 = 0x10;
pub const CORE_SS: u16 = 0x10;

pub const COM1: u16 = 0x3f8;
pub const BOOT_INFO_MAGIC: u64 = 9390519679394335664;

pub const MULTIBOOT2_MAGIC: u32 = 0x36D76289;
pub const MULTIBOOT_MEMORY_AVAILABLE: u32 = 1;
pub const MULTIBOOT_MEMORY_RESERVED: u32 = 2;
pub const MULTIBOOT_MEMORY_ACPI_RECLAIMABLE: u32 = 3;
pub const MULTIBOOT_MEMORY_NVS: u32 = 4;
pub const MULTIBOOT_MEMORY_BADRAM: u32 = 5;
pub const MULTIBOOT_MEMORY_PERSISTENT: u32 = 7;
pub const MULTIBOOT_MEMORY_PERSISTENT_LEGACY: u32 = 12;
pub const MULTIBOOT_MEMORY_COREBOOT_TABLES: u32 = 16;
pub const MULTIBOOT_MEMORY_CODE: u32 = 20;

pub const U64_BYTES: usize = 0x8;
pub const FXSAVE_SIZE: usize = 0x200;

pub const CORE_BEGIN: u64 = 0xffffffff80000000;
pub const CORE_SIZE: usize = 0x80000000;
pub const HEAP_BEGIN: u64 = 0xffffffff81000000;
pub const IDENTITY_END: usize = 0x200000;
pub const OPTIMISTIC_HEAP: usize = 0x200000;
pub const OPTIMISTIC_HEAP_SIZE: usize = 0x200000;

pub const TASK_BEGIN: usize = 0x400000;
pub const TASK_SIZE: usize = 0x7fc00000;

pub const PAGE_TABLES_OFFSET: usize = 0x180000;

pub const STAGE1_ELF: &'static str = "target/stage1.elf";
pub const RAW_OUTPUT: &'static str = "target/gen/page_tables.bin";
pub const SEG_OUTPUT: &'static str = "target/gen/segments.bin";
pub const ASM_OUTPUT: &'static str = "target/gen/page_tables.asm";
pub const MODULE_PREFIX: &'static str = "target/modules";

/// Address bits that are significant in a canonical x86-64 address.
pub const CANONICAL_BITS: u64 = 48;

/// Bits 12..48 of a page-table entry: the physical frame address.
pub const PAGE_ADDR_MASK: u64 = 0x0000_ffff_ffff_f000;

/// True when `to` is a power of two.
pub open spec fn is_pow2(to: u64) -> bool {
    to != 0 && to & ((to - 1) as u64) == 0
}

/// What `align` computes: `n` rounded up with the mask of `to`.
pub open spec fn align_spec(n: u64, to: u64) -> u64 {
    ((n + to - 1) as u64) & !((to - 1) as u64)
}

/// What `align_back` computes: `n` with the bits of `to - 1` cleared.
pub open spec fn align_back_spec(n: u64, to: u64) -> u64 {
    n & !((to - 1) as u64)
}

/// What `is_aligned` decides: no bit of `to - 1` is set in `n`.
pub open spec fn is_aligned_spec(n: u64, to: u64) -> bool {
    n & ((to - 1) as u64) == 0
}

/// Sign-extension of bit 47 into the upper sixteen bits.
pub open spec fn canonical_spec(addr: u64) -> u64 {
    if (addr >> 47u64) & 1 == 1 {
        addr | 0xffff_0000_0000_0000u64
    } else {
        addr
    }
}

pub proof fn lemma_mask_round(x: u64, m: u64)
    by (bit_vector)
    ensures
        x & !m == x - (x & m),
        x & m <= m,
        (x & !m) & m == 0,
        x & !m <= x,
{
}

/// For a power of two `to`, having no bit of `to - 1` set is being a multiple of `to`.
pub proof fn lemma_aligned_is_multiple(n: u64, k: nat)
    requires
        k < 64,
    ensures
        is_aligned_spec(n, vstd::arithmetic::power2::pow2(k) as u64) <==> n % (vstd::arithmetic::power2::pow2(k) as u64) == 0,
{
    vstd::bits::lemma_u64_pow2_no_overflow(k);
    vstd::arithmetic::power2::lemma_pow2_pos(k);
    vstd::bits::lemma_u64_low_bits_mask_is_mod(n, k);
    assert(vstd::bits::low_bits_mask(k) as u64 == ((vstd::arithmetic::power2::pow2(k) as u64) - 1) as u64);
}

/// For a power of two `to`, rounding `n` up gives the least multiple of `to` not below `n`.
pub proof fn lemma_align_is_least_multiple(n: u64, k: nat)
    requires
        k < 64,
        n + vstd::arithmetic::power2::pow2(k) - 1 <= u64::MAX,
    ensures
        ({
            let to = vstd::arithmetic::power2::pow2(k) as u64;
            let r = align_spec(n, to);
            &&& r % to == 0
            &&& n <= r < n + to
            &&& forall|m: u64| #[trigger] (m % to) == 0 && n <= m ==> r <= m
        }),
{
    vstd::bits::lemma_u64_pow2_no_overflow(k);
    vstd::arithmetic::power2::lemma_pow2_pos(k);
    let to = vstd::arithmetic::power2::pow2(k) as u64;
    let r = align_spec(n, to);
    lemma_mask_round((n + to - 1) as u64, (to - 1) as u64);
    assert(r & ((to - 1) as u64) == 0);
    lemma_aligned_is_multiple(r, k);
    assert forall|m: u64| #[trigger] (m % to) == 0 && n <= m implies r <= m by {
        if m < r {
            let t = to as int;
            let qm = m as int / t;
            let qr = r as int / t;
            vstd::arithmetic::div_mod::lemma_fundamental_div_mod(m as int, t);
            vstd::arithmetic::div_mod::lemma_fundamental_div_mod(r as int, t);
            assert(m as int == t * qm);
            assert(r as int == t * qr);
            assert(t * qm < t * qr);
            assert(t * qr < t * qm + t);
            assert(qm < qr) by (nonlinear_arith)
                requires
                    t * qm < t * qr,
                    t > 0,
            ;
            assert(t * qr >= t * qm + t) by (nonlinear_arith)
                requires
                    qm < qr,
                    t > 0,
            ;
        }
    }
}

/// Round `n` up with the mask of `to`. For a power of two `to` the result is the
/// least multiple of `to` not below `n` (see `lemma_align_is_least_multiple`).
pub fn align(n: u64, to: u64) -> (r: u64)
    requires
        to >= 1,
        n + to - 1 <= u64::MAX,
    ensures
        r == align_spec(n, to),
        is_aligned_spec(r, to),
        n <= r < n + to,
{
    proof {
        lemma_mask_round((n + to - 1) as u64, (to - 1) as u64);
    }
    (n + (to - 1)) & !(to - 1)
}

/// Round `n` down with the mask of `to`.
pub fn align_back(n: u64, to: u64) -> (r: u64)
    requires
        to >= 1,
    ensures
        r == align_back_spec(n, to),
        is_aligned_spec(r, to),
        r <= n,
        is_pow2(to) ==> n < r + to,
{
    proof {
        lemma_mask_round(n, (to - 1) as u64);
    }
    n & !(to - 1)
}

/// Whether `n` has no bit of `to - 1` set.
pub fn is_aligned(n: u64, to: u64) -> (r: bool)
    requires
        to >= 1,
    ensures
        r == is_aligned_spec(n, to),
{
    n & (to - 1) == 0
}

/// Whether an aligned boundary of `align_to` lies between `base` and `end`.
pub fn on_boundary(base: u64, end: u64, align_to: u64) -> (r: bool)
    requires
        align_to >= 1,
        base + align_to - 1 <= u64::MAX,
    ensures
        r == (align_spec(base, align_to) <= align_back_spec(end, align_to)),
{
    align(base, align_to) <= align_back(end, align_to)
}

/// Sign-extend bit 47 of an address into its upper sixteen bits.
pub fn canonicalize(addr: u64) -> (r: u64)
    ensures
        r == canonical_spec(addr),
{
    let bit = (addr >> 47u64) & 1;
    assert(bit == 0 || bit == 1) by (bit_vector)
        requires
            bit == (addr >> 47u64) & 1,
    ;
    let fill = 0u64.wrapping_sub(bit);
    assert(fill == if bit == 1 { u64::MAX } else { 0 });
    let r = addr | (fill << 48u64);
    assert(r == canonical_spec(addr)) by (bit_vector)
        requires
            bit == (addr >> 47u64) & 1,
            fill == if bit == 1 { u64::MAX } else { 0 },
            r == addr | (fill << 48u64),
    ;
    r
}

/// The hex digit of `n`, below sixteen, in upper or lower case.
pub open spec fn hex_char(n: nat, upper: bool) -> char {
    if n < 10 {
        (48 + n) as char
    } else if upper {
        (55 + n) as char
    } else {
        (87 + n) as char
    }
}

/// The byte `b` in hex, with no leading zero.
pub open spec fn byte_hex(b: u8, upper: bool) -> Seq<char> {
    if b < 16 {
        seq![hex_char(b as nat, upper)]
    } else {
        seq![hex_char((b / 16) as nat, upper), hex_char((b % 16) as nat, upper)]
    }
}

/// The bytes `bytes` in hex, one after the other, each with no leading zero.
pub open spec fn bytes_hex(bytes: Seq<u8>, upper: bool) -> Seq<char>
    decreases bytes.len(),
{
    if bytes.len() == 0 {
        Seq::empty()
    } else {
        bytes_hex(bytes.drop_last(), upper) + byte_hex(bytes.last(), upper)
    }
}

/// The one-character text of hex digit `n`.
fn hex_digit_text(n: u8, upper: bool) -> (r: &'static str)
    requires
        n < 16,
    ensures
        r@ == seq![hex_char(n as nat, upper)],
{
    let r = if upper {
        let digits = "0123456789ABCDEF";
        proof {
            reveal_strlit("0123456789ABCDEF");
        }
        digits.substring_char(n as usize, n as usize + 1)
    } else {
        let digits = "0123456789abcdef";
        proof {
            reveal_strlit("0123456789abcdef");
        }
        digits.substring_char(n as usize, n as usize + 1)
    };
    proof {
        assert(r@ =~= seq![hex_char(n as nat, upper)]);
    }
    r
}

/// Bytes shown in hex.
#[derive(Debug)]
pub struct ByteHex<'a> {
    slice: &'a [u8],
}

impl<'a> ByteHex<'a> {
    pub closed spec fn bytes(&self) -> Seq<u8> {
        self.slice@
    }

    pub fn new(slice: &'a [u8]) -> (r: ByteHex<'a>)
        ensures
            r.bytes() == slice@,
    {
        ByteHex { slice: slice }
    }

    fn hex(&self, upper: bool) -> (r: String)
        ensures
            r@ == bytes_hex(self.bytes(), upper),
    {
        let mut r = String::new();
        let mut i: usize = 0;
        proof {
            assert(self.slice@.take(0) =~= Seq::<u8>::empty());
        }
        while i < self.slice.len()
            invariant
                i <= self.slice@.len(),
                r@ == bytes_hex(self.slice@.take(i as int), upper),
            decreases self.slice@.len() - i,
        {
            let b = self.slice[i];
            if b >= 16 {
                r.append(hex_digit_text(b / 16, upper));
            }
            r.append(hex_digit_text(b % 16, upper));
            proof {
                assert(self.slice@.take(i + 1).drop_last() =~= self.slice@.take(i as int));
                assert(self.slice@.take(i + 1).last() == b);
                if b < 16 {
                    assert(b % 16 == b);
                }
                assert(r@ =~= bytes_hex(self.slice@.take(i + 1), upper));
            }
            i = i + 1;
        }
        proof {
            assert(self.slice@.take(i as int) =~= self.slice@);
        }
        r
    }

    /// The bytes in lower-case hex, each with no leading zero.
    pub fn lower_hex(&self) -> (r: String)
        ensures
            r@ == bytes_hex(self.bytes(), false),
    {
        self.hex(false)
    }

    /// The bytes in upper-case hex, each with no leading zero.
    pub fn upper_hex(&self) -> (r: String)
        ensures
            r@ == bytes_hex(self.bytes(), true),
    {
        self.hex(true)
    }
}

} // verus!
