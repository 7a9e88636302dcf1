use plonk_setup::utils::{ceil_log2, cir_power, log2_floor};

#[test]
fn test_log2_floor() {
    // Powers of 2
    assert_eq!(log2_floor(1), 0);
    assert_eq!(log2_floor(2), 1);
    assert_eq!(log2_floor(4), 2);
    assert_eq!(log2_floor(8), 3);
    assert_eq!(log2_floor(16), 4);
    assert_eq!(log2_floor(1024), 10);
    assert_eq!(log2_floor(1 << 31), 31);

    // Non powers of 2
    assert_eq!(log2_floor(3), 1); // 2^1 = 2 < 3 < 4 = 2^2
    assert_eq!(log2_floor(5), 2);
    assert_eq!(log2_floor(15), 3);
    assert_eq!(log2_floor(17), 4);
    assert_eq!(log2_floor(999), 9); // 2^9 = 512 < 999 < 1024 = 2^10

    // Edge case
    assert_eq!(log2_floor(u32::MAX), 31);
}

#[test]
fn test_ceil_log2() {
    assert_eq!(ceil_log2(1), 0);
    assert_eq!(ceil_log2(2), 1);
    assert_eq!(ceil_log2(3), 2);
    assert_eq!(ceil_log2(8), 3);
    assert_eq!(ceil_log2(9), 4);
}

#[test]
fn test_cir_power() {
    // floored at 3: the ceiling log of one less than the number of gates
    assert_eq!(cir_power(1), 3);
    assert_eq!(cir_power(2), 3);
    assert_eq!(cir_power(9), 3);
    assert_eq!(cir_power(10), 4);
    assert_eq!(cir_power(17), 4);
    assert_eq!(cir_power(18), 5);
    assert_eq!(cir_power(1025), 10);
}
