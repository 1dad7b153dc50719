//! The decisions of the system-call entry: the registers that set it up, and what a call asks
//! for.

use vstd::prelude::*;
use crate::constants::{CORE_CS, LSTAR_MSR, STAR_MSR, SYSENTER_CS_MSR, SYSENTER_EIP_MSR, SYSENTER_ESP_MSR};

verus! {

/// The model-specific registers to write, in order, for `sysenter` to land at
/// `sysenter_landing` on the stack whose top is `stack_top` in the core code segment, and for
/// `syscall` to land at `syscall_landing`.
pub fn syscall_registers(sysenter_landing: u64, stack_top: u64, syscall_landing: u64) -> (r: Vec<(u32, u64)>)
    ensures
        r@ == seq![
            (SYSENTER_CS_MSR, CORE_CS as u64),
            (SYSENTER_EIP_MSR, sysenter_landing),
            (SYSENTER_ESP_MSR, stack_top),
            (STAR_MSR, ((CORE_CS as u64) * 0x1_0000_0000) as u64),
            (LSTAR_MSR, syscall_landing),
        ],
{
    let cs: u64 = CORE_CS as u64;
    assert(cs == 8);
    assert(8u64 << 32u64 == 0x8_0000_0000u64) by (bit_vector);
    vec![
        (SYSENTER_CS_MSR, cs),
        (SYSENTER_EIP_MSR, sysenter_landing),
        (SYSENTER_ESP_MSR, stack_top),
        (STAR_MSR, cs << 32u64),
        (LSTAR_MSR, syscall_landing),
    ]
}

/// What a system call asks of the kernel.
#[derive(Debug, Clone, Copy, PartialEq, Eq, Structural)]
pub enum Call {
    /// Give the processor to another task.
    Release,
    /// End the calling task.
    Exit,
    /// Wait.
    Wait,
    /// A task call with an argument that names none of these.
    UnknownArgument,
    /// A branch that names no service.
    UnknownBranch,
}

/// The call that `branch` and `argument` name: branch 0 is the task calls, with argument 0 to
/// release, 1 to exit and 2 to wait.
pub fn sysenter_call(branch: u64, argument: u64) -> (r: Call)
    ensures
        r == (if branch != 0 {
            Call::UnknownBranch
        } else if argument == 0 {
            Call::Release
        } else if argument == 1 {
            Call::Exit
        } else if argument == 2 {
            Call::Wait
        } else {
            Call::UnknownArgument
        }),
{
    if branch != 0 {
        Call::UnknownBranch
    } else if argument == 0 {
        Call::Release
    } else if argument == 1 {
        Call::Exit
    } else if argument == 2 {
        Call::Wait
    } else {
        Call::UnknownArgument
    }
}

} // verus!
