use gengen::{binary, from_binary};

#[test]
fn bits_are_read_most_significant_first() {
    assert_eq!(from_binary(&[true, false, true, false]), 10);
    assert_eq!(from_binary(&[false, false, false, true]), 1);
    assert_eq!(from_binary(&[true, true, true, true]), 15);
    assert_eq!(from_binary(&[true]), 1);
    assert_eq!(from_binary(&[false]), 0);
}

#[test]
fn no_bits_spell_zero() {
    assert_eq!(from_binary(&[]), 0);
}

#[test]
fn leading_zero_bits_do_not_count() {
    let mut bits = vec![false; 100];
    bits.push(true);
    bits.push(true);
    assert_eq!(from_binary(&bits), 3);
}

#[test]
fn numbers_are_spelled_in_the_fewest_bits() {
    assert_eq!(binary(0), vec![false]);
    assert_eq!(binary(1), vec![true]);
    assert_eq!(binary(2), vec![true, false]);
    assert_eq!(binary(10), vec![true, false, true, false]);
    assert_eq!(binary(16), vec![true, false, false, false, false]);
}

#[test]
fn spelling_and_reading_agree() {
    for n in [0usize, 1, 2, 3, 9, 10, 13, 15, 16, 255, 256, 12345, usize::MAX] {
        assert_eq!(from_binary(&binary(n)), n);
    }
}
