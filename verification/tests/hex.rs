use kernel_std::constants::ByteHex;

#[test]
fn byte_hex_has_no_leading_zeros() {
    let bytes = [0x0a, 0xff, 0x10, 0x00, 0x7b];
    assert_eq!(ByteHex::new(&bytes).lower_hex(), "aff1007b");
    assert_eq!(ByteHex::new(&bytes).upper_hex(), "AFF1007B");
}

#[test]
fn byte_hex_of_nothing_is_empty() {
    assert_eq!(ByteHex::new(&[]).lower_hex(), "");
}

#[test]
fn align_rounds_up_to_the_top_of_the_address_space() {
    assert_eq!(kernel_std::constants::align(0x1001, 0x1000), 0x2000);
    assert_eq!(kernel_std::constants::align(0x1000, 0x1000), 0x1000);
    assert_eq!(kernel_std::constants::align(0xffff_ffff_ffff_f000, 0x1000), 0xffff_ffff_ffff_f000);
    assert!(!kernel_std::constants::on_boundary(0x1001, 0x1fff, 0x1000));
    assert!(kernel_std::constants::on_boundary(0x1001, 0x2000, 0x1000));
    assert!(kernel_std::constants::on_boundary(0xffff_ffff_ffff_f000, u64::MAX, 0x1000));
}
