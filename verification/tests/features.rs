use kernel_std::cpu::features::{
    check_cpuid, check_long_mode, check_sse, flipped_id_flag, long_mode_active, paging_control, paging_on,
    sse_control, Missing,
};

#[test]
fn cpuid_needs_a_flippable_id_flag() {
    assert_eq!(flipped_id_flag(0x0000_0202), 0x0020_0202);
    assert_eq!(check_cpuid(0x202, 0x0020_0202), Ok(()));
    assert_eq!(check_cpuid(0x202, 0x202), Err(Missing::Cpuid));
}

#[test]
fn long_mode_checks_in_order() {
    let all = (1 << 29) | (1 << 20) | (1 << 11);
    assert_eq!(check_long_mode(0x8000_0008, all), Ok(()));
    assert_eq!(check_long_mode(0x8000_0000, all), Err(Missing::LongMode));
    assert_eq!(check_long_mode(0x8000_0001, 0), Err(Missing::LongMode));
    assert_eq!(check_long_mode(0x8000_0001, (1 << 29) | (1 << 11)), Err(Missing::NxProtection));
    assert_eq!(check_long_mode(0x8000_0001, (1 << 29) | (1 << 20)), Err(Missing::Syscall));
}

#[test]
fn sse_checks_in_order() {
    let edx = (1 << 25) | (1 << 26) | (1 << 19) | (1 << 5) | (1 << 11) | (1 << 24);
    assert_eq!(check_sse(1, edx), Ok(()));
    assert_eq!(check_sse(1, edx & !(1 << 25)), Err(Missing::Sse));
    assert_eq!(check_sse(1, edx & !(1 << 26)), Err(Missing::Sse2));
    assert_eq!(check_sse(0, edx), Err(Missing::Sse3));
    assert_eq!(check_sse(1, edx & !(1 << 19)), Err(Missing::Clflush));
    assert_eq!(check_sse(1, edx & !(1 << 5)), Err(Missing::Msr));
    assert_eq!(check_sse(1, edx & !(1 << 11)), Err(Missing::Sep));
    assert_eq!(check_sse(1, edx & !(1 << 24)), Err(Missing::Fxsave));
    // an earlier missing feature is reported first
    assert_eq!(check_sse(0, 0), Err(Missing::Sse));
}

#[test]
fn control_register_settings() {
    // emulation cleared, monitoring set, and only the low 16 bits of CR0 kept
    assert_eq!(sse_control(0x8001_0015, 0x20), (0x0013, 0x620));
    assert_eq!(paging_control(0, 0, 0), (0xb0, 0x901, 0x1_0000));
    assert_eq!(paging_on(0x11), 0x8000_0011);
    assert!(long_mode_active(0x500));
    assert!(!long_mode_active(0x100));
}
