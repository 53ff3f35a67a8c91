use bucketlink::size::{format_size, parse_size, SizeError};

#[test]
fn upper_case_units_count_in_thousands() {
    assert_eq!(parse_size("15M"), Ok(15_000_000));
    assert_eq!(parse_size("1K"), Ok(1_000));
    assert_eq!(parse_size("3G"), Ok(3_000_000_000));
}

#[test]
fn lower_case_units_count_in_powers_of_1024() {
    assert_eq!(parse_size("15m"), Ok(15_728_640));
    assert_eq!(parse_size("1k"), Ok(1_024));
    assert_eq!(parse_size("2g"), Ok(2_147_483_648));
}

#[test]
fn a_number_without_unit_counts_bytes() {
    assert_eq!(parse_size("512"), Ok(512));
    assert_eq!(parse_size("5"), Ok(5));
    assert_eq!(parse_size("0"), Ok(0));
    assert_eq!(parse_size("007"), Ok(7));
}

#[test]
fn fractions_are_scaled_and_cut_off() {
    assert_eq!(parse_size("2.5G"), Ok(2_500_000_000));
    assert_eq!(parse_size("2.5g"), Ok(2_684_354_560));
    assert_eq!(parse_size("1.5k"), Ok(1_536));
    assert_eq!(parse_size("0.1k"), Ok(102));
    assert_eq!(parse_size("0.0009765625k"), Ok(1));
    assert_eq!(parse_size("0.000976562499999k"), Ok(0));
    assert_eq!(parse_size("1.9999"), Ok(1));
    assert_eq!(parse_size(".5K"), Ok(500));
    assert_eq!(parse_size("5."), Ok(5));
    assert_eq!(parse_size("0.00000000000000000000000000000000000000001G"), Ok(0));
}

#[test]
fn white_space_around_a_size_is_passed_over() {
    assert_eq!(parse_size("  15M\n"), Ok(15_000_000));
    assert_eq!(parse_size("\t7"), Ok(7));
    assert_eq!(parse_size("\u{a0}7K\u{2003}"), Ok(7_000));
}

#[test]
fn what_is_no_size_is_refused() {
    for text in ["", "   ", ".", "k", "M", "12x", "x12", "-5", "+5", "1 k", "1.2.3", "1e3", "inf", "15MB", "1,5K", "٣"] {
        assert_eq!(parse_size(text), Err(SizeError::InvalidFormat), "{:?}", text);
    }
}

#[test]
fn sizes_beyond_the_largest_count_are_held_to_it() {
    assert_eq!(parse_size("18446744073709551615"), Ok(u64::MAX));
    assert_eq!(parse_size("18446744073709551616"), Ok(u64::MAX));
    assert_eq!(parse_size("18446744073709551614"), Ok(u64::MAX - 1));
    assert_eq!(parse_size("99999999999999999999999999999999999999999999"), Ok(u64::MAX));
    assert_eq!(parse_size("99999999999G"), Ok(u64::MAX));
    assert_eq!(parse_size("17179869183.999999999g"), Ok(18_446_744_073_709_551_614));
    assert_eq!(parse_size("17179869184g"), Ok(u64::MAX));
}

#[test]
fn large_numbers_are_read_digit_for_digit() {
    assert_eq!(parse_size("9007199254740993"), Ok(9_007_199_254_740_993));
}

#[test]
fn small_sizes_are_written_plainly() {
    assert_eq!(format_size(0), "0");
    assert_eq!(format_size(7), "7");
    assert_eq!(format_size(999), "999");
}

#[test]
fn sizes_are_written_in_the_largest_unit_they_reach() {
    assert_eq!(format_size(1_000), "1.00K");
    assert_eq!(format_size(1_500), "1.50K");
    assert_eq!(format_size(999_999), "1000.00K");
    assert_eq!(format_size(1_000_000), "1.00M");
    assert_eq!(format_size(15_000_000), "15.00M");
    assert_eq!(format_size(15_728_640), "15.73M");
    assert_eq!(format_size(999_999_999), "1000.00M");
    assert_eq!(format_size(1_000_000_000), "1.00G");
    assert_eq!(format_size(2_500_000_000), "2.50G");
    assert_eq!(format_size(1_073_741_824), "1.07G");
    assert_eq!(format_size(u64::MAX), "18446744073.71G");
}

#[test]
fn hundredths_are_rounded_to_the_nearest() {
    assert_eq!(format_size(1_234), "1.23K");
    assert_eq!(format_size(1_236), "1.24K");
    assert_eq!(format_size(1_994), "1.99K");
    assert_eq!(format_size(1_996), "2.00K");
    assert_eq!(format_size(1_054_999), "1.05M");
    assert_eq!(format_size(1_055_001), "1.06M");
}

#[test]
fn of_two_nearest_hundredths_the_even_one_is_written() {
    assert_eq!(format_size(1_125), "1.12K");
    assert_eq!(format_size(1_135), "1.14K");
    assert_eq!(format_size(1_005), "1.00K");
    assert_eq!(format_size(1_015), "1.02K");
    assert_eq!(format_size(2_625_000), "2.62M");
}

#[test]
fn written_sizes_read_back_within_half_a_hundredth() {
    let samples: [u64; 14] = [
        0, 1, 999, 1_000, 1_004, 1_005, 123_456, 999_999, 1_000_000, 15_728_640, 999_999_999,
        1_000_000_000, 123_456_789_012, u64::MAX,
    ];
    for bytes in samples {
        let unit: u128 = if bytes >= 1_000_000_000 {
            1_000_000_000
        } else if bytes >= 1_000_000 {
            1_000_000
        } else if bytes >= 1_000 {
            1_000
        } else {
            1
        };
        let back = parse_size(&format_size(bytes)).unwrap();
        let gap = (back as i128 - bytes as i128).unsigned_abs();
        assert!(200 * gap <= unit, "{} came back as {}", bytes, back);
        if bytes < 1_000 {
            assert_eq!(back, bytes);
        }
    }
}

#[test]
fn reading_writing_and_reading_again_is_stable() {
    for text in ["15M", "15m", "2.5G", "1023", "1.5k", "0.1k"] {
        let once = parse_size(text).unwrap();
        let again = parse_size(&format_size(once)).unwrap();
        let unit: u128 = if once >= 1_000_000_000 {
            1_000_000_000
        } else if once >= 1_000_000 {
            1_000_000
        } else if once >= 1_000 {
            1_000
        } else {
            1
        };
        let gap = (again as i128 - once as i128).unsigned_abs();
        assert!(200 * gap <= unit, "{}: {} then {}", text, once, again);
    }
    assert_eq!(parse_size(&format_size(parse_size("15M").unwrap())), Ok(15_000_000));
    assert_eq!(parse_size(&format_size(parse_size("15m").unwrap())), Ok(15_730_000));
}
