use chrono::Datelike;
use flood_projects::{
    clean_contractor, clean_province, median, normalize_ratios, parse_decimal, parse_int, round_div,
    truncate, try_parse_date,
};

fn day(y: i32, m: u32, d: u32) -> i32 {
    chrono::NaiveDate::from_ymd_opt(y, m, d).unwrap().num_days_from_ce()
}

#[test]
fn parse_int_trims_and_rejects() {
    assert_eq!(parse_int(" 42 "), Some(42));
    assert_eq!(parse_int("-7"), Some(-7));
    assert_eq!(parse_int("+2022"), Some(2022));
    assert_eq!(parse_int(""), None);
    assert_eq!(parse_int("   "), None);
    assert_eq!(parse_int("12a"), None);
    assert_eq!(parse_int("1,000"), None);
    assert_eq!(parse_int("2147483647"), Some(i32::MAX));
    assert_eq!(parse_int("-2147483648"), Some(i32::MIN));
    assert_eq!(parse_int("2147483648"), None);
    assert_eq!(parse_int("-"), None);
    assert_eq!(parse_int("\u{3000}42\u{a0}\t"), Some(42));
}

#[test]
fn parse_decimal_handles_separators_and_rounding() {
    assert_eq!(parse_decimal("1,234.56", 2), Some(123456));
    assert_eq!(parse_decimal(" 1,000,000 ", 2), Some(100000000));
    assert_eq!(parse_decimal("0.005", 2), Some(1));
    assert_eq!(parse_decimal("-0.005", 2), Some(-1));
    assert_eq!(parse_decimal("1.234", 2), Some(123));
    assert_eq!(parse_decimal(".5", 2), Some(50));
    assert_eq!(parse_decimal("5.", 2), Some(500));
    assert_eq!(parse_decimal("14.599512", 6), Some(14599512));
    assert_eq!(parse_decimal("", 2), None);
    assert_eq!(parse_decimal(".", 2), None);
    assert_eq!(parse_decimal("12a", 2), None);
    assert_eq!(parse_decimal("1.2.3", 2), None);
    assert_eq!(parse_decimal("Clustered with Contract ID X", 2), None);
    assert_eq!(parse_decimal("10000000000000", 2), Some(1_000_000_000_000_000));
    assert_eq!(parse_decimal("10000000000000.01", 2), None);
}

#[test]
fn parse_date_tries_formats_in_order() {
    assert_eq!(try_parse_date("01/02/2022"), Some(day(2022, 2, 1)));
    assert_eq!(try_parse_date("2022-03-15"), Some(day(2022, 3, 15)));
    assert_eq!(try_parse_date("12/31/2021"), Some(day(2021, 12, 31)));
    assert_eq!(try_parse_date("05-Jan-22"), Some(day(2022, 1, 5)));
    assert_eq!(try_parse_date("Mar 15, 2022"), Some(day(2022, 3, 15)));
    assert_eq!(try_parse_date("March 15, 2022"), Some(day(2022, 3, 15)));
    assert_eq!(try_parse_date("  2023-01-09  "), Some(day(2023, 1, 9)));
    assert_eq!(try_parse_date(""), None);
    assert_eq!(try_parse_date("not a date"), None);
}

#[test]
fn median_examples() {
    let mut odd = vec![1i64, 2, 3];
    assert_eq!(median(&mut odd), 4);
    let mut even = vec![1i64, 2, 3, 4];
    assert_eq!(median(&mut even), 5);
    let mut empty: Vec<i64> = Vec::new();
    assert_eq!(median(&mut empty), 0);
}

#[test]
fn median_ignores_input_order() {
    let mut a = vec![4i64, 1, 3, 2];
    let mut b = vec![1i64, 2, 3, 4];
    assert_eq!(median(&mut a), median(&mut b));
    assert_eq!(a, vec![1, 2, 3, 4]);
    let mut c = vec![9i64, -3, 5];
    assert_eq!(median(&mut c), 10);
}

#[test]
fn round_div_halves_away_from_zero() {
    assert_eq!(round_div(5, 2), 3);
    assert_eq!(round_div(-5, 2), -3);
    assert_eq!(round_div(4, 3), 1);
    assert_eq!(round_div(-4, 3), -1);
    assert_eq!(round_div(2, 3), 1);
    assert_eq!(round_div(0, 7), 0);
}

fn whole(v: &[i128]) -> Vec<(i128, i128)> {
    v.iter().map(|&x| (x, 1)).collect()
}

#[test]
fn normalize_spreads_scores() {
    assert_eq!(normalize_ratios(&whole(&[10, 20, 30])), vec![0, 5000, 10000]);
    assert_eq!(normalize_ratios(&whole(&[30, 10, 20])), vec![10000, 0, 5000]);
    assert_eq!(normalize_ratios(&whole(&[-5, 0, 10, 20])), vec![0, 0, 0, 10000]);
    assert_eq!(normalize_ratios(&whole(&[10, 15, 40])), vec![0, 1667, 10000]);
}

#[test]
fn normalize_uses_exact_fractions() {
    // 1/300, 1000 and 2000: the middle score is (1000 - 1/300) / (2000 - 1/300) = 49.99992%.
    assert_eq!(normalize_ratios(&vec![(1, 300), (1000, 1), (2000, 1)]), vec![0, 5000, 10000]);
    // 1/3 and 2/6 are the same score.
    assert_eq!(normalize_ratios(&vec![(1, 3), (2, 6), (1, 1)]), vec![0, 0, 10000]);
    // (1/2 - 1/3) / (1 - 1/3) = 1/4
    assert_eq!(normalize_ratios(&vec![(1, 3), (1, 2), (3, 3)]), vec![0, 2500, 10000]);
}

#[test]
fn normalize_equal_scores_give_zero() {
    assert_eq!(normalize_ratios(&whole(&[7, 7, 7])), vec![0, 0, 0]);
    assert_eq!(normalize_ratios(&vec![(7, 1), (14, 2), (-1, 1)]), vec![0, 0, 0]);
    assert_eq!(normalize_ratios(&vec![]), Vec::<i128>::new());
}

#[test]
fn truncate_marks_cut() {
    assert_eq!(truncate("abcdef", 4), "abc\u{2026}");
    assert_eq!(truncate("abcd", 4), "abcd");
    assert_eq!(truncate("", 1), "");
    assert_eq!(truncate("", 0), "");
}

#[test]
fn clean_names() {
    assert_eq!(clean_contractor("  acme builders "), Some("ACME BUILDERS".to_string()));
    assert_eq!(clean_contractor("Clustered with Contract ID 21A0001"), None);
    assert_eq!(clean_contractor("see MYCA with Project ID P-9"), None);
    assert_eq!(clean_contractor("   "), None);
    assert_eq!(clean_province(" cebu "), Some("CEBU".to_string()));
    assert_eq!(clean_province(""), None);
}
