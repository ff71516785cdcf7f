use tokimono::sparkline::{column_mask, quantize, render, LEFT_BITS, RIGHT_BITS};

#[test]
fn all_zero_renders_empty_cells() {
    assert_eq!(render(&[0, 0, 0, 0], 100), "\u{2800}\u{2800}");
}

#[test]
fn all_max_renders_full_cells() {
    assert_eq!(render(&[100, 100, 100, 100], 100), "\u{28FF}\u{28FF}");
}

#[test]
fn odd_length_leaves_last_right_column_empty() {
    let out = render(&[100, 100, 100], 100);
    let chars: Vec<char> = out.chars().collect();
    assert_eq!(chars.len(), 2);
    assert_eq!(chars[0], '\u{28FF}');
    // last cell: full left column, empty right column
    assert_eq!(chars[1], '\u{2847}');
}

#[test]
fn short_inputs_do_not_panic() {
    assert_eq!(render(&[], 100), "");
    let out = render(&[50], 100);
    let chars: Vec<char> = out.chars().collect();
    assert_eq!(chars.len(), 1);
    // 50% of 4 levels rounds to 2 -> dot7 + dot3 = 0x44
    assert_eq!(chars[0], '\u{2844}');
}

#[test]
fn value_above_max_clamps_instead_of_panicking() {
    assert_eq!(render(&[150], 100), render(&[100], 100));
}

#[test]
fn quantize_rounds_half_up_and_caps() {
    assert_eq!(quantize(0, 100), 0);
    assert_eq!(quantize(12, 100), 0);
    assert_eq!(quantize(13, 100), 1);
    assert_eq!(quantize(50, 100), 2);
    assert_eq!(quantize(62, 100), 2);
    assert_eq!(quantize(63, 100), 3);
    assert_eq!(quantize(100, 100), 4);
    assert_eq!(quantize(u32::MAX, 100), 4);
    assert_eq!(quantize(5000, 10000), 2);
}

#[test]
fn zero_scale_draws_nothing() {
    assert_eq!(quantize(7, 0), 0);
    assert_eq!(render(&[7, 9], 0), "\u{2800}");
}

#[test]
fn column_masks_fill_from_the_bottom() {
    assert_eq!(column_mask(0, LEFT_BITS), 0);
    assert_eq!(column_mask(1, LEFT_BITS), 0x40);
    assert_eq!(column_mask(2, LEFT_BITS), 0x44);
    assert_eq!(column_mask(4, LEFT_BITS), 0x47);
    assert_eq!(column_mask(9, LEFT_BITS), 0x47);
    assert_eq!(column_mask(1, RIGHT_BITS), 0x80);
    assert_eq!(column_mask(3, RIGHT_BITS), 0xB0);
    assert_eq!(column_mask(4, RIGHT_BITS), 0xB8);
}

#[test]
fn cells_combine_left_and_right_columns() {
    // left 1 dot (0x40), right 3 dots (0xB0)
    assert_eq!(render(&[25, 75], 100), "\u{28F0}");
    assert_eq!(render(&[100, 0, 0, 100], 100), "\u{2847}\u{28B8}");
}
