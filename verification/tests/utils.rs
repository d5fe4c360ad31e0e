use buddy_system::utils::{nearest_lower_2_power, nearest_upper_2_power};

#[test]
fn lower_power_exact_values() {
    assert_eq!(nearest_lower_2_power(1), 1);
    assert_eq!(nearest_lower_2_power(2), 2);
    assert_eq!(nearest_lower_2_power(3), 2);
    assert_eq!(nearest_lower_2_power(10), 8);
    assert_eq!(nearest_lower_2_power(15), 8);
    assert_eq!(nearest_lower_2_power(16), 16);
    assert_eq!(nearest_lower_2_power(1023), 512);
}

#[test]
fn upper_power_exact_values() {
    assert_eq!(nearest_upper_2_power(0), 1);
    assert_eq!(nearest_upper_2_power(1), 1);
    assert_eq!(nearest_upper_2_power(2), 2);
    assert_eq!(nearest_upper_2_power(5), 8);
    assert_eq!(nearest_upper_2_power(8), 8);
    assert_eq!(nearest_upper_2_power(9), 16);
    assert_eq!(nearest_upper_2_power(1025), 2048);
}

#[test]
fn powers_of_two_round_to_themselves() {
    let mut p: usize = 1;
    while p <= 1 << 20 {
        assert_eq!(nearest_lower_2_power(p), p);
        assert_eq!(nearest_upper_2_power(p), p);
        p *= 2;
    }
}
