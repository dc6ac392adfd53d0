use rollback::mask::{lowest_bit, range_mask, run_length, runs};

#[test]
fn lowest_bit_of_masks() {
    assert_eq!(lowest_bit(0), 128);
    assert_eq!(lowest_bit(1), 0);
    assert_eq!(lowest_bit(0b1000), 3);
    assert_eq!(lowest_bit(1u128 << 127), 127);
}

#[test]
fn run_length_counts_consecutive_ones() {
    assert_eq!(run_length(0b0111_0110, 1), 2);
    assert_eq!(run_length(0b0111_0110, 4), 3);
    assert_eq!(run_length(0b0111_0110, 0), 0);
    assert_eq!(run_length(u128::MAX, 0), 128);
    assert_eq!(run_length(u128::MAX, 100), 28);
}

#[test]
fn range_mask_sets_the_range() {
    assert_eq!(range_mask(0, 1), 1);
    assert_eq!(range_mask(2, 3), 0b11100);
    assert_eq!(range_mask(0, 128), u128::MAX);
    assert_eq!(range_mask(120, 8), 0xffu128 << 120);
}

#[test]
fn runs_decompose_a_mask() {
    assert_eq!(runs(0), vec![]);
    assert_eq!(runs(0b0111_0110), vec![(1, 2), (4, 3)]);
    assert_eq!(runs(u128::MAX), vec![(0, 128)]);
    assert_eq!(runs(1 | (1u128 << 127)), vec![(0, 1), (127, 1)]);
}

#[test]
fn bits_across_the_middle_of_a_mask() {
    assert_eq!(lowest_bit(1u128 << 64), 64);
    assert_eq!(lowest_bit((1u128 << 70) | (1u128 << 100)), 70);
    assert_eq!(run_length(u128::MAX >> 1, 0), 127);
    assert_eq!(run_length(((1u128 << 80) - 1) & !((1u128 << 50) - 1), 50), 30);
    assert_eq!(run_length(u128::MAX, 64), 64);
    assert_eq!(run_length(u128::MAX << 10, 60), 68);
    assert_eq!(run_length(1u128 << 127, 127), 1);
}
