use ecc_engine::utils::{check, to_binary_string};

#[test]
fn to_binary_string_pads_on_the_left() {
    assert_eq!(to_binary_string(5, 8), "00000101");
    assert_eq!(to_binary_string(5, 3), "101");
    assert_eq!(to_binary_string(5, 0), "101");
    assert_eq!(to_binary_string(255, 4), "11111111");
    assert_eq!(to_binary_string(0, 0), "0");
    assert_eq!(to_binary_string(0, 1), "0");
    assert_eq!(to_binary_string(0, 4), "0000");
    assert_eq!(to_binary_string(1, 2), "01");
    assert_eq!(to_binary_string(6, 4), "0110");
}

#[test]
fn to_binary_string_agrees_with_the_formatter() {
    for val in [0_u64, 1, 2, 3, 0x53, 0xCA, 1 << 40, u64::MAX - 1, u64::MAX] {
        for width in [0_usize, 1, 7, 8, 64, 70] {
            assert_eq!(to_binary_string(val, width), format!("{:0>width$b}", val, width = width));
        }
    }
}

#[test]
fn check_accepts_a_true_condition() {
    check(1 + 1 == 2, "arithmetic");
}
