use puzzle_solvers::ids::{
    checked_total_invalid_ids, has_repeated_block, is_invalid_id, parse_input,
    total_count_invalid_ids, IdRange,
};

fn chars(s: &str) -> Vec<char> {
    s.chars().collect()
}

#[test]
fn single_characters_are_never_invalid() {
    for digit in ["0", "1", "2", "3", "4", "5", "6", "7", "8", "9"] {
        assert!(!is_invalid_id(digit));
    }
}

#[test]
fn repeated_blocks_are_invalid() {
    assert!(is_invalid_id("1212"));
    assert!(is_invalid_id("11"));
    assert!(is_invalid_id("123123"));
    assert!(is_invalid_id("99"));
    assert!(is_invalid_id("1010"));
    assert!(is_invalid_id("121212"));
}

#[test]
fn only_the_start_is_looked_at() {
    assert!(is_invalid_id("1123"));
    assert!(is_invalid_id("1231234"));
    assert!(is_invalid_id("998"));
    assert!(!is_invalid_id("1213"));
    assert!(!is_invalid_id("12312"));
    assert!(!is_invalid_id("1233"));
    assert!(!is_invalid_id("12"));
    assert!(!is_invalid_id("-11"));
}

#[test]
fn repeated_block_on_characters() {
    assert!(!has_repeated_block(&[]));
    assert!(!has_repeated_block(&chars("7")));
    assert!(has_repeated_block(&chars("abab")));
    assert!(has_repeated_block(&chars("\u{e9}\u{e9}")));
    assert!(!has_repeated_block(&chars("abba")));
}

#[test]
fn empty_range_sums_to_zero() {
    assert_eq!(IdRange::new(5, 4).invalid_sum(), 0);
    assert_eq!(IdRange::new(11, 10).invalid_sum(), 0);
    assert_eq!(IdRange::new(5, -3).invalid_sum(), 0);
    assert_eq!(IdRange::new(i64::MAX, i64::MIN).invalid_sum(), 0);
}

#[test]
fn single_element_range() {
    assert_eq!(IdRange::new(11, 11).invalid_sum(), 11);
    assert_eq!(IdRange::new(12, 12).invalid_sum(), 0);
    assert_eq!(IdRange::new(1212, 1212).invalid_sum(), 1212);
    assert_eq!(IdRange::new(7, 7).invalid_sum(), 0);
    assert_eq!(IdRange::new(-11, -11).invalid_sum(), 0);
    assert_eq!(IdRange::new(i64::MAX, i64::MAX).invalid_sum(), 0);
}

#[test]
fn range_sums() {
    assert_eq!(IdRange::new(1, 25).invalid_sum(), 33);
    assert_eq!(IdRange::new(11, 22).invalid_sum(), 33);
    assert_eq!(IdRange::new(10, 120).invalid_sum(), 1640);
    assert_eq!(IdRange::new(95, 115).invalid_sum(), 774);
    assert_eq!(IdRange::new(998, 1012).invalid_sum(), 998 + 999 + 1010);
    assert_eq!(IdRange::new(-30, 12).invalid_sum(), 11);
}

#[test]
fn checked_sum_agrees_and_reports_overflow() {
    assert_eq!(IdRange::new(1, 25).checked_invalid_sum(), Some(33));
    assert_eq!(IdRange::new(3, 2).checked_invalid_sum(), Some(0));
    // The two largest values start with "92": no block is written twice there.
    assert_eq!(IdRange::new(i64::MAX - 1, i64::MAX).checked_invalid_sum(), Some(0));
    // Both 8800000000000000000 and 8800000000000000001 start with "88".
    assert_eq!(
        IdRange::new(8_800_000_000_000_000_000, 8_800_000_000_000_000_001).checked_invalid_sum(),
        None
    );
}

#[test]
fn id_range_from_str_reads_two_integers() {
    assert_eq!(IdRange::from_str("11-22").unwrap(), IdRange::new(11, 22));
    assert_eq!(IdRange::from_str("0-0").unwrap(), IdRange::new(0, 0));
    assert_eq!(IdRange::from_str("22-11").unwrap(), IdRange::new(22, 11));
    assert_eq!(IdRange::from_str("5--3").unwrap(), IdRange::new(5, -3));
    assert_eq!(IdRange::from_str("+5-+7").unwrap(), IdRange::new(5, 7));
    assert_eq!(IdRange::from_str("007-010").unwrap(), IdRange::new(7, 10));
    assert_eq!(
        IdRange::from_str("0-9223372036854775807").unwrap(),
        IdRange { start: 0, end: i64::MAX }
    );
}

#[test]
fn id_range_through_the_std_trait() {
    assert_eq!("3-4".parse::<IdRange>().unwrap(), IdRange::new(3, 4));
    assert_eq!("3_4".parse::<IdRange>().unwrap_err().0, "3_4");
}

#[test]
fn id_range_from_str_refuses_what_is_no_range() {
    for bad in [
        "", "-", "11", "11-", "-22", "-5-10", "1-2-3", "a-b", "11-22\n", " 11-22", "11 - 22",
        "11,22", "1-9223372036854775808", "1--", "1-+",
    ] {
        assert_eq!(IdRange::from_str(bad).unwrap_err().0, bad);
    }
}

#[test]
fn id_range_error_message() {
    let e = IdRange::from_str("abc").unwrap_err();
    assert_eq!(e.message(), "not a correct ID range format abc");
}

#[test]
fn ids_parse_input_splits_on_commas() {
    let ranges = parse_input("11-22,95-115,998-1012").unwrap();
    assert_eq!(
        ranges,
        vec![IdRange::new(11, 22), IdRange::new(95, 115), IdRange::new(998, 1012)]
    );
    assert_eq!(parse_input("1-2").unwrap(), vec![IdRange::new(1, 2)]);
}

#[test]
fn ids_parse_input_stops_at_first_bad_piece() {
    assert_eq!(parse_input("11-22,x,y").unwrap_err().0, "x");
    assert_eq!(parse_input("").unwrap_err().0, "");
    assert_eq!(parse_input("11-22,").unwrap_err().0, "");
    assert_eq!(parse_input("11-22,,3-4").unwrap_err().0, "");
    assert_eq!(parse_input("11-22,33-44\n").unwrap_err().0, "33-44\n");
    assert_eq!(parse_input("1-2-3,4-5").unwrap_err().0, "1-2-3");
}

#[test]
fn total_over_all_ranges() {
    let ranges = parse_input("11-22,95-115,998-1012,5-4").unwrap();
    assert_eq!(total_count_invalid_ids(ranges), 33 + 774 + 998 + 999 + 1010);
    assert_eq!(total_count_invalid_ids(vec![]), 0);
}

#[test]
fn total_does_not_depend_on_order() {
    let one = vec![IdRange::new(1, 25), IdRange::new(95, 115)];
    let other = vec![IdRange::new(95, 115), IdRange::new(1, 25)];
    assert_eq!(total_count_invalid_ids(one), 807);
    assert_eq!(total_count_invalid_ids(other), 807);
}

#[test]
fn checked_total_reports_overflow() {
    let big = IdRange::new(8_800_000_000_000_000_000, 8_800_000_000_000_000_000);
    assert_eq!(checked_total_invalid_ids(&[big]), Some(8_800_000_000_000_000_000));
    assert_eq!(checked_total_invalid_ids(&[big, big]), None);
    assert_eq!(checked_total_invalid_ids(&[]), Some(0));
    assert_eq!(checked_total_invalid_ids(&[IdRange::new(1, 25), IdRange::new(2, 1)]), Some(33));
}
