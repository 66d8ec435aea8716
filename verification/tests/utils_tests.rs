use mpfft::utils::power_of_two;
use mpfft::utils::power_of_two_usize;

#[test]
fn is_power_of_two() {
    assert_eq!(power_of_two(16), true);
    assert_eq!(power_of_two(4), true);
    assert_eq!(power_of_two(3), false);
}

#[test]
fn power_of_two_accepts_exact_powers() {
    for v in [1i64, 2, 4, 8, 1024] {
        assert!(power_of_two(v));
    }
}

#[test]
fn power_of_two_rejects_other_values() {
    for v in [0i64, 3, 5, 6, 100] {
        assert!(!power_of_two(v));
    }
}

#[test]
fn power_of_two_rejects_negative_values() {
    for v in [-1i64, -2, -4, -1024, i64::MIN] {
        assert!(!power_of_two(v));
    }
}

#[test]
fn power_of_two_usize_matches_predicate() {
    for v in [1usize, 2, 4, 8, 1024] {
        assert!(power_of_two_usize(v));
    }
    for v in [0usize, 3, 5, 6, 100] {
        assert!(!power_of_two_usize(v));
    }
}
