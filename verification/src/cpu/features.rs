//! The processor checks and control-register settings of the boot path: what the values read
//! from `cpuid`, the flags and the control registers decide, and what is written back.

use vstd::prelude::*;

verus! {

/// What the processor lacks that the kernel needs.
#[derive(Debug, Clone, Copy, PartialEq, Eq, Structural)]
pub enum Missing {
    Cpuid,
    LongMode,
    NxProtection,
    Syscall,
    Sse,
    Sse2,
    Sse3,
    Clflush,
    Msr,
    Sep,
    Fxsave,
}

/// Bit `n` of `x` is set.
pub open spec fn has_bit(x: u32, n: u32) -> bool {
    x & (1u32 << n) != 0
}

/// The value of the flags register with the ID bit (bit 21) flipped, to be written and read
/// back.
pub fn flipped_id_flag(flags: u32) -> (r: u32)
    ensures
        r == flags ^ (1u32 << 21u32),
{
    flags ^ (1u32 << 21u32)
}

/// `cpuid` exists when the ID bit of the flags register could be flipped: the flags read back
/// after writing them with that bit flipped, `flags_after`, differ from the flags before,
/// `flags_before`.
pub fn check_cpuid(flags_before: u32, flags_after: u32) -> (r: Result<(), Missing>)
    ensures
        r == (if flags_before == flags_after { Err(Missing::Cpuid) } else { Ok::<(), Missing>(()) }),
{
    if flags_before == flags_after {
        Err(Missing::Cpuid)
    } else {
        Ok(())
    }
}

/// The extended `cpuid` leaf that reports long mode.
pub const EXTENDED_FEATURES: u32 = 0x8000_0001;

/// Long mode, no-execute pages and `syscall` are there: the highest extended `cpuid` leaf
/// `max_extended` reaches the extended features, whose `edx` has bit 29 (long mode), 20
/// (no-execute) and 11 (`syscall`) set; the first check that fails is reported.
pub fn check_long_mode(max_extended: u32, edx: u32) -> (r: Result<(), Missing>)
    ensures
        r == (if max_extended < EXTENDED_FEATURES {
            Err(Missing::LongMode)
        } else if !has_bit(edx, 29) {
            Err(Missing::LongMode)
        } else if !has_bit(edx, 20) {
            Err(Missing::NxProtection)
        } else if !has_bit(edx, 11) {
            Err(Missing::Syscall)
        } else {
            Ok::<(), Missing>(())
        }),
{
    if max_extended < EXTENDED_FEATURES {
        return Err(Missing::LongMode);
    }
    if edx & (1u32 << 29u32) == 0 {
        return Err(Missing::LongMode);
    }
    if edx & (1u32 << 20u32) == 0 {
        return Err(Missing::NxProtection);
    }
    if edx & (1u32 << 11u32) == 0 {
        return Err(Missing::Syscall);
    }
    Ok(())
}

/// The streaming extensions and the instructions around them are there, from `ecx` and `edx`
/// of `cpuid` leaf 1: SSE (edx bit 25), SSE2 (26), SSE3 (ecx bit 0), CLFLUSH (19), MSR (5),
/// SEP (11) and FXSAVE/FXRSTOR (24), checked in this order.
pub fn check_sse(ecx: u32, edx: u32) -> (r: Result<(), Missing>)
    ensures
        r == (if !has_bit(edx, 25) {
            Err(Missing::Sse)
        } else if !has_bit(edx, 26) {
            Err(Missing::Sse2)
        } else if !has_bit(ecx, 0) {
            Err(Missing::Sse3)
        } else if !has_bit(edx, 19) {
            Err(Missing::Clflush)
        } else if !has_bit(edx, 5) {
            Err(Missing::Msr)
        } else if !has_bit(edx, 11) {
            Err(Missing::Sep)
        } else if !has_bit(edx, 24) {
            Err(Missing::Fxsave)
        } else {
            Ok::<(), Missing>(())
        }),
{
    if edx & (1u32 << 25u32) == 0 {
        return Err(Missing::Sse);
    }
    if edx & (1u32 << 26u32) == 0 {
        return Err(Missing::Sse2);
    }
    if ecx & (1u32 << 0u32) == 0 {
        return Err(Missing::Sse3);
    }
    if edx & (1u32 << 19u32) == 0 {
        return Err(Missing::Clflush);
    }
    if edx & (1u32 << 5u32) == 0 {
        return Err(Missing::Msr);
    }
    if edx & (1u32 << 11u32) == 0 {
        return Err(Missing::Sep);
    }
    if edx & (1u32 << 24u32) == 0 {
        return Err(Missing::Fxsave);
    }
    Ok(())
}

/// The control registers that turn on the streaming extensions: CR0 kept to its low 16 bits
/// with coprocessor emulation (bit 2) cleared and coprocessor monitoring (bit 1) set; CR4
/// with OSFXSR and OSXMMEXCPT (bits 9 and 10) set.
pub fn sse_control(cr0: u32, cr4: u32) -> (r: (u32, u32))
    ensures
        r == ((cr0 & 0xfffb) | 0x2, cr4 | (3u32 << 9u32)),
{
    ((cr0 & 0xfffb) | 0x2, cr4 | (3u32 << 9u32))
}

/// The model-specific register of the extended features.
pub const EFER_MSR: u32 = 0xC000_0080;

/// The registers that prepare paging, short of turning it on: CR4 with PAE, PSE and PGE
/// (bits 5, 4 and 7) set; the extended features with long mode, no-execute (bits 8 and 11) and
/// `syscall` (bit 0) set; CR0 with write protection (bit 16) set.
pub fn paging_control(cr4: u32, efer: u64, cr0: u32) -> (r: (u32, u64, u32))
    ensures
        r == (cr4 | (0xbu32 << 4u32), efer | (0x9u64 << 8u64) | 0x1, cr0 | (1u32 << 16u32)),
{
    (cr4 | (0xbu32 << 4u32), efer | (0x9u64 << 8u64) | 0x1, cr0 | (1u32 << 16u32))
}

/// CR0 with paging (bit 31) turned on.
pub fn paging_on(cr0: u32) -> (r: u32)
    ensures
        r == cr0 | (1u32 << 31u32),
{
    cr0 | (1u32 << 31u32)
}

/// Whether the extended features say long mode is active (bit 10).
pub fn long_mode_active(efer: u64) -> (r: bool)
    ensures
        r == ((efer >> 10u64) & 0x1 == 0x1),
{
    (efer >> 10u64) & 0x1 == 0x1
}

} // verus!
