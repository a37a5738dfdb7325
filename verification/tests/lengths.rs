use just_interval_finder::error::PeakError;
use just_interval_finder::length::{check_length, is_power_of_two};

#[test]
fn powers_of_two_are_recognised() {
    let mut n: usize = 1;
    for _ in 0..30 {
        assert!(is_power_of_two(n), "{}", n);
        assert_eq!(n.is_power_of_two(), is_power_of_two(n));
        n *= 2;
    }
    assert!(is_power_of_two(1usize << (usize::BITS - 1)));
}

#[test]
fn other_lengths_are_not() {
    assert!(!is_power_of_two(0));
    for n in [3usize, 5, 6, 7, 9, 10, 12, 24, 100, 1000, 1023, 1025, 4095, usize::MAX] {
        assert!(!is_power_of_two(n), "{}", n);
    }
    for n in 0..5000usize {
        assert_eq!(is_power_of_two(n), n.is_power_of_two(), "{}", n);
    }
}

#[test]
fn length_check_accepts_powers_of_two() {
    assert_eq!(check_length(1), Ok(()));
    assert_eq!(check_length(2), Ok(()));
    assert_eq!(check_length(8), Ok(()));
    assert_eq!(check_length(1024), Ok(()));
}

#[test]
fn length_check_refuses_the_rest() {
    assert_eq!(check_length(0), Err(PeakError::InvalidLength));
    assert_eq!(check_length(3), Err(PeakError::InvalidLength));
    assert_eq!(check_length(12), Err(PeakError::InvalidLength));
    assert_eq!(check_length(1000), Err(PeakError::InvalidLength));
}
