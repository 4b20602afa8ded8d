use std::cmp::Ordering;

use humnum::{
    compare_lines, compare_text, humnum_sort, parse_number, sort_ranges, split_lines, Args,
    HumanNumericLine, Mode, Options,
};

fn signed() -> Mode {
    Mode::Default(Args { insensitive: false })
}

fn unsigned() -> Mode {
    Mode::NoNegatives(Args { insensitive: false })
}

fn hex() -> Mode {
    Mode::Hexadecimal(Args { insensitive: false })
}

fn sort_strs(lines: &[&str], mode: Mode) -> Vec<String> {
    let input: String = lines.concat();
    let buf = input.as_bytes();
    humnum_sort(buf, mode)
        .into_iter()
        .map(|(s, e)| String::from_utf8(buf[s..e].to_vec()).unwrap())
        .collect()
}

#[test]
fn reflexive_on_samples() {
    let samples: [&[u8]; 6] = [b"", b"\n", b"item10\n", b"-3\n", b"a1b22c333", b"ABC123\n"];
    for mode in [signed(), unsigned(), hex()] {
        for s in samples {
            assert_eq!(compare_lines(s, s, mode), Ordering::Equal);
        }
    }
}

#[test]
fn antisymmetric_on_samples() {
    let samples: [&[u8]; 7] = [b"item2\n", b"item10\n", b"-3\n", b"-10\n", b"fileA\n", b"file9\n", b"x"];
    for mode in [signed(), unsigned(), hex()] {
        for a in samples {
            for b in samples {
                assert_eq!(compare_lines(a, b, mode), compare_lines(b, a, mode).reverse());
            }
        }
    }
}

#[test]
fn numeric_grouping_signed() {
    let sorted = sort_strs(&["item2\n", "item10\n", "item1\n"], signed());
    assert_eq!(sorted, vec!["item1\n", "item2\n", "item10\n"]);
}

#[test]
fn sign_handling_signed() {
    let sorted = sort_strs(&["-3\n", "1\n", "-10\n", "2\n"], signed());
    assert_eq!(sorted, vec!["-10\n", "-3\n", "1\n", "2\n"]);
}

#[test]
fn sign_is_literal_when_unsigned() {
    assert_eq!(compare_lines(b"-10\n", b"-3\n", unsigned()), Ordering::Greater);
    assert_eq!(compare_lines(b"-10\n", b"-3\n", signed()), Ordering::Less);
}

#[test]
fn hex_letter_compares_literally() {
    assert_eq!(compare_lines(b"fileA\n", b"file9\n", hex()), Ordering::Greater);
    assert_eq!(compare_lines(b"fileB\n", b"file9\n", hex()), Ordering::Greater);
    // A letter below '9' as a byte shows the comparison is by byte, not by hex value.
    assert_eq!(compare_lines(b"file!\n", b"file9\n", hex()), Ordering::Less);
}

#[test]
fn prefix_compares_equal() {
    assert_eq!(compare_lines(b"ab\n", b"ab", signed()), Ordering::Equal);
    assert_eq!(compare_lines(b"ab", b"ab\n", signed()), Ordering::Equal);
}

#[test]
fn equal_lines_keep_input_order() {
    let sorted = sort_strs(&["ab\n", "aa\n", "ab"], signed());
    assert_eq!(sorted, vec!["aa\n", "ab\n", "ab"]);
    let sorted = sort_strs(&["x1\n", "x01\n", "a\n"], signed());
    assert_eq!(sorted, vec!["a\n", "x1\n", "x01\n"]);
    let sorted = sort_strs(&["x01\n", "x1\n", "a\n"], signed());
    assert_eq!(sorted, vec!["a\n", "x01\n", "x1\n"]);
}

#[test]
fn stable_order_indices() {
    let buf = b"x1\nx01\nx1\ny\n";
    let ranges = split_lines(buf);
    let order = sort_ranges(buf, &ranges, signed());
    assert_eq!(order, vec![0, 1, 2, 3]);
}

#[test]
fn case_insensitive_flag() {
    let ins = Mode::Default(Args { insensitive: true });
    assert_eq!(compare_lines(b"ABC123\n", b"abc123\n", ins), Ordering::Equal);
    assert_eq!(compare_lines(b"ABC123\n", b"abc123\n", signed()), Ordering::Less);
}

#[test]
fn long_digit_runs_do_not_panic() {
    let long = b"n1234567890123456789012345678901234567890\n";
    let short = b"n5\n";
    for mode in [signed(), unsigned(), hex()] {
        assert_eq!(compare_lines(long, short, mode), Ordering::Greater);
        assert_eq!(compare_lines(long, long, mode), Ordering::Equal);
    }
    let neg = b"-1234567890123456789012345678901234567890\n";
    assert_eq!(compare_lines(neg, b"-5\n", signed()), Ordering::Less);
}

#[test]
fn parse_saturates_and_reads_prefixes() {
    assert_eq!(parse_number(b"42x", signed()), 42);
    assert_eq!(parse_number(b"-42", signed()), -42);
    assert_eq!(parse_number(b"-42", unsigned()), 0);
    assert_eq!(parse_number(b"ff", hex()), 255);
    assert_eq!(parse_number(b"1aG", hex()), 26);
    assert_eq!(parse_number(b"", signed()), 0);
    assert_eq!(parse_number(b"99999999999999999999", signed()), i64::MAX as i128);
    assert_eq!(parse_number(b"-99999999999999999999", signed()), i64::MIN as i128);
    assert_eq!(parse_number(b"99999999999999999999", unsigned()), u64::MAX as i128);
    assert_eq!(parse_number(b"18446744073709551615", unsigned()), u64::MAX as i128);
    assert_eq!(parse_number(b"10000000000000000", hex()), u64::MAX as i128);
    assert_eq!(parse_number(b"ffffffffffffffff", hex()), u64::MAX as i128);
}

#[test]
fn hex_mode_reads_hex_digits_after_a_decimal_anchor() {
    // The mismatch is at a letter, but a decimal digit precedes it, so the run is numeric.
    assert_eq!(compare_lines(b"x1a\n", b"x1b\n", hex()), Ordering::Less);
    assert_eq!(compare_lines(b"x10\n", b"x9\n", hex()), Ordering::Greater);
}

#[test]
fn terminator_is_left_out_of_the_last_number() {
    // Without a terminator, the digit run's final byte is dropped, so both read as zero.
    assert_eq!(compare_lines(b"a1", b"a2", signed()), Ordering::Equal);
    assert_eq!(compare_lines(b"a1\n", b"a2\n", signed()), Ordering::Less);
}

#[test]
fn empty_input_and_lines() {
    assert_eq!(compare_lines(b"", b"abc", signed()), Ordering::Equal);
    assert!(split_lines(b"").is_empty());
    assert!(humnum_sort(b"", signed()).is_empty());
}

#[test]
fn split_keeps_terminators() {
    assert_eq!(split_lines(b"a\nbb\nc"), vec![(0, 2), (2, 5), (5, 6)]);
    assert_eq!(split_lines(b"a\n\n"), vec![(0, 2), (2, 3)]);
}

#[test]
fn text_compare_folds_case_only_when_asked() {
    assert_eq!(compare_text(b"Abc", b"abc", true), Ordering::Equal);
    assert_eq!(compare_text(b"Abc", b"abc", false), Ordering::Less);
    assert_eq!(compare_text(b"ab", b"abc", false), Ordering::Less);
    assert_eq!(compare_text(b"b", b"abc", true), Ordering::Greater);
}

#[test]
fn mode_predicates() {
    let m = Mode::Hexadecimal(Args { insensitive: true });
    assert!(m.consider_hex() && !m.sort_negatives() && m.insensitive());
    assert!(signed().sort_negatives() && !signed().consider_hex() && !signed().insensitive());
    assert!(!unsigned().sort_negatives() && !unsigned().consider_hex());
    assert_eq!(Mode::default(), signed());
    assert_eq!(Options::default().mode, signed());
    assert_eq!(Options::new(hex()).mode, hex());
}

#[test]
fn line_values_compare() {
    let a = HumanNumericLine::new(b"v2\n", signed());
    let b = HumanNumericLine::new(b"v10\n", signed());
    assert_eq!(a.humnum_compare(&b), Ordering::Less);
    assert!(a != b);
    assert!(a == a);
    assert!(a < b);
    assert_eq!(b.partial_cmp(&a), Some(Ordering::Greater));
    assert_eq!(b.as_ref(), b"v10\n");
}
