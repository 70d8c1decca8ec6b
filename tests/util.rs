use twenty48::util::{check_bounded, check_power_of_base, flip};

#[test]
fn bounded_examples() {
    assert!(check_bounded(5, 2, 7));
    assert!(check_bounded(-3, -3, -3));
    assert!(!check_bounded(12, 12, 11));
    assert!(!check_bounded(1, 2, 6));
    assert!(!check_bounded(7, 2, 6));
}

#[test]
fn power_of_base_examples() {
    assert!(!check_power_of_base(4, 0));
    assert!(!check_power_of_base(5, 1));
    assert!(check_power_of_base(1, 6));
    assert!(check_power_of_base(16, 2));
    assert!(!check_power_of_base(28, 3));
    assert!(check_power_of_base(65536, 2));
    assert!(!check_power_of_base(0, 2));
    assert!(check_power_of_base(27, 3));
}

#[test]
fn flip_extremes() {
    for _ in 0..100 {
        assert!(flip(3, 3));
        assert!(!flip(0, 3));
    }
}

#[test]
fn flip_half() {
    let n = (0..4000).filter(|_| flip(1, 2)).count();
    assert!(n > 1700 && n < 2300);
}
