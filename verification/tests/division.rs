use kernel_std::division::{__udivdi3, __udivremi3, __umoddi3};

#[test]
fn division_of_small_and_large_words() {
    assert_eq!(__udivdi3(100, 7), 14);
    assert_eq!(__umoddi3(100, 7), 2);
    assert_eq!(__udivremi3(u64::MAX, 1), (u64::MAX, 0));
    // the high word of the quotient comes from the high word of the dividend
    assert_eq!(__udivremi3(0x1234_5678_9abc_def0, 0x10), (0x0123_4567_89ab_cdef, 0));
    assert_eq!(__udivremi3(u64::MAX, 0x1_0000_0000), (0xffff_ffff, 0xffff_ffff));
    assert_eq!(__udivremi3(5, 9), (0, 5));
}

#[test]
fn division_by_a_divisor_with_its_top_bit_near() {
    // doubling the divisor would pass the top bit: it stops there
    assert_eq!(__udivremi3(u64::MAX, (1 << 63) + 1), (1, (1 << 63) - 2));
    assert_eq!(__udivremi3(u64::MAX, 1 << 63), (1, (1 << 63) - 1));
    assert_eq!(__udivdi3(u64::MAX - 1, (1 << 62) + 3), 3);
}

#[test]
fn division_agrees_with_the_operators() {
    let values = [1u64, 2, 3, 7, 10, 255, 0x1_0000_0000, 0xffff_ffff, 0x8000_0000_0000_0001, u64::MAX / 3, u64::MAX];
    for &a in values.iter() {
        for &b in values.iter() {
            assert_eq!(__udivremi3(a, b), (a / b, a % b), "{} / {}", a, b);
            assert_eq!(__udivdi3(a, b), a / b);
            assert_eq!(__umoddi3(a, b), a % b);
        }
    }
}
