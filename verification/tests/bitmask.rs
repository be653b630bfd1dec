use hlsearch::BitMask;

#[test]
fn tracks_logical_size_and_popcount() {
    let mut mask = BitMask::new_ones(65);
    for idx in 0..65 {
        mask.set(idx, false);
    }
    mask.set(0, true);
    mask.set(64, true);
    mask.set(65, true);
    assert_eq!(mask.count_ones(), 2);
    mask.set(0, false);
    assert_eq!(mask.count_ones(), 1);
}

#[test]
fn initializes_only_logical_bits_at_word_boundaries() {
    assert_eq!(BitMask::new_ones(0).count_ones(), 0);
    assert_eq!(BitMask::new_ones(64).count_ones(), 64);
    assert_eq!(BitMask::new_ones(65).count_ones(), 65);
}

#[test]
fn bitand_into_count_retains_only_shared_set_bits() {
    let mut left = BitMask::new_ones(65);
    let mut right = BitMask::new_ones(65);
    left.set(1, false);
    left.set(64, false);
    right.set(0, false);
    right.set(64, false);

    let mut result = BitMask::new_ones(65);
    result.bitand_into_count(&left, &right);

    assert_eq!(result.size(), 65);
    assert_eq!(result.count_ones(), 62);
}

#[test]
fn bitand_into_count_reuses_destination_and_counts_bits() {
    let mut left = BitMask::new_ones(65);
    let mut right = BitMask::new_ones(65);
    left.set(1, false);
    right.set(0, false);
    let mut output = BitMask::new_ones(65);

    assert_eq!(output.bitand_into_count(&left, &right), 63);
    assert_eq!(output.count_ones(), 63);
    assert_eq!(output.size(), 65);
}

#[test]
fn bitand_into_count_bounded_matches_full_and_when_reachable() {
    let mut left = BitMask::new_ones(65);
    let mut right = BitMask::new_ones(65);
    left.set(1, false);
    right.set(0, false);
    let lhs_count = left.count_ones();
    let mut output = BitMask::new_ones(65);

    assert_eq!(
        output.bitand_into_count_bounded(&left, &right, lhs_count, 63),
        Some(63)
    );
    assert_eq!(output.count_ones(), 63);
}

#[test]
fn bitand_into_count_bounded_aborts_when_upper_bound_is_too_low() {
    let mut left = BitMask::new_ones(65);
    let mut right = BitMask::new_ones(65);
    left.set(1, false);
    right.set(0, false);
    let lhs_count = left.count_ones();
    let mut output = BitMask::new_ones(65);

    assert_eq!(
        output.bitand_into_count_bounded(&left, &right, lhs_count, 64),
        None
    );
}

#[test]
fn shorter_operands_leave_the_remaining_words_alone() {
    let left = BitMask::new_ones(3);
    let right = BitMask::new_ones(130);
    let mut output = BitMask::new_ones(130);

    assert_eq!(output.bitand_into_count(&left, &right), 3);
    assert_eq!(output.count_ones(), 3 + 66);
}

#[test]
fn bounded_conjunction_stops_at_the_first_hopeless_word() {
    let left = BitMask::new_ones(192);
    let mut right = BitMask::new_ones(192);
    for idx in 0..10 {
        right.set(idx, false);
    }
    let mut output = BitMask::new_ones(192);
    output.set(100, false);

    assert_eq!(
        output.bitand_into_count_bounded(&left, &right, 192, 183),
        None
    );
    assert_eq!(output.count_ones(), 54 + 127);
}

#[test]
fn bounded_conjunction_without_bound_counts_everything() {
    let left = BitMask::new_ones(70);
    let mut right = BitMask::new_ones(70);
    right.set(69, false);
    let mut output = BitMask::new_ones(70);
    assert_eq!(
        output.bitand_into_count_bounded(&left, &right, 0, 0),
        Some(69)
    );
}

#[test]
fn bounded_conjunction_of_empty_masks_reaches_nothing() {
    let empty = BitMask::new_ones(0);
    let mut output = BitMask::new_ones(0);
    assert_eq!(
        output.bitand_into_count_bounded(&empty, &empty, 0, 1),
        None
    );
    assert_eq!(
        output.bitand_into_count_bounded(&empty, &empty, 0, 5),
        None
    );
    assert_eq!(
        output.bitand_into_count_bounded(&empty, &empty, 0, 0),
        Some(0)
    );
}

#[test]
fn padding_is_never_counted() {
    let mut left = BitMask::new_ones(65);
    let right = BitMask::new_ones(65);
    let mut output = BitMask::new_ones(65);
    left.set(70, true);
    left.set(65, true);
    assert_eq!(left.count_ones(), 65);
    assert_eq!(output.bitand_into_count(&left, &right), 65);
    output.set(64, false);
    output.set(127, true);
    assert_eq!(output.count_ones(), 64);
}
