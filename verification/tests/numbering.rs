use renparkn::anchor::{after_anchor, find_first};
use renparkn::numbering::extract_numbering;
use renparkn::numeral::{is_ascii_digit, scan_numeral};
use renparkn::sequence::SequenceValue;

fn value(text: &str) -> SequenceValue {
    SequenceValue::parse(text).unwrap()
}

fn written(file_name: &str, anchor: &str) -> String {
    extract_numbering(file_name, anchor).to_text()
}

#[test]
fn name_without_digits_has_the_fallback() {
    assert_eq!(extract_numbering("README", ""), SequenceValue::fallback());
    assert_eq!(extract_numbering("holiday.jpeg", ""), SequenceValue::fallback());
    assert_eq!(extract_numbering("", ""), SequenceValue::fallback());
    assert_eq!(extract_numbering("a.b.c", "b"), SequenceValue::fallback());
    assert_eq!(written("README", ""), "99.9");
}

#[test]
fn fallback_is_ninety_nine_point_nine() {
    let fallback = SequenceValue::fallback();
    assert_eq!(fallback.whole(), "99");
    assert_eq!(fallback.fraction(), "9");
    assert_eq!(fallback.to_text(), "99.9");
    assert_eq!(fallback, value("99.9"));
}

#[test]
fn leading_zeros_do_not_count() {
    assert_eq!(extract_numbering("img007.png", ""), value("7"));
    assert_eq!(extract_numbering("007", ""), value("7"));
    assert_eq!(extract_numbering("x007y8", ""), value("7"));
    assert_eq!(extract_numbering("shot-007.final.png", ""), value("7"));
    assert_eq!(written("img007.png", ""), "7");
}

#[test]
fn anchor_restricts_the_scan() {
    assert_eq!(extract_numbering("scan_012.jpg", "scan_"), value("12"));
    assert_eq!(written("scan_012.jpg", "scan_"), "12");
    assert_eq!(extract_numbering("2021_scan_012.jpg", "scan_"), value("12"));
    assert_eq!(extract_numbering("2021_scan_012.jpg", ""), value("2021"));
}

#[test]
fn absent_anchor_scans_the_whole_name() {
    assert_eq!(extract_numbering("scan_012.jpg", "xyz"), value("12"));
    assert_eq!(written("scan_012.jpg", "xyz"), "12");
    assert_eq!(extract_numbering("2021_scan_012.jpg", "SCAN_"), value("2021"));
}

#[test]
fn anchor_match_is_the_first_one() {
    assert_eq!(extract_numbering("a1_a2_a3", "a"), value("1"));
    assert_eq!(extract_numbering("p1_p2_p3", "_p"), value("2"));
    assert_eq!(extract_numbering("12abc", "ab"), SequenceValue::fallback());
}

#[test]
fn second_dot_halts_the_scan() {
    assert_eq!(scan_numeral("img3.14.5.png"), "3.14");
    assert_eq!(extract_numbering("img3.14.5.png", ""), value("3.14"));
    assert_eq!(written("img3.14.5.png", ""), "3.14");
}

#[test]
fn lone_dot_is_no_fraction() {
    assert_eq!(extract_numbering("pic5..png", ""), value("5"));
    assert_eq!(written("pic5..png", ""), "5");
    assert_eq!(extract_numbering("pic5.png", ""), value("5"));
    assert_eq!(extract_numbering("pic5.", ""), value("5"));
}

#[test]
fn only_the_first_run_is_taken() {
    assert_eq!(extract_numbering("a12b34", ""), value("12"));
    assert_eq!(extract_numbering("v2-final-10.txt", ""), value("2"));
    assert_eq!(extract_numbering("1.5x2.5", ""), value("1.5"));
}

#[test]
fn scan_skips_what_stands_before_the_first_digit() {
    assert_eq!(scan_numeral(""), "");
    assert_eq!(scan_numeral("abc"), "");
    assert_eq!(scan_numeral("..."), "");
    assert_eq!(scan_numeral(".5"), "5");
    assert_eq!(scan_numeral("a.b.7c"), "7");
    assert_eq!(scan_numeral("été12"), "12");
}

#[test]
fn scan_drops_a_dot_before_another_character() {
    assert_eq!(scan_numeral("5.x"), "5");
    assert_eq!(scan_numeral("img042.png"), "042");
    assert_eq!(scan_numeral("12.5kg"), "12.5");
    assert_eq!(scan_numeral("12.50.1"), "12.50");
}

#[test]
fn scan_keeps_a_dot_at_the_end_and_before_a_second_dot() {
    assert_eq!(scan_numeral("5."), "5.");
    assert_eq!(scan_numeral("pic5..png"), "5.");
    assert_eq!(scan_numeral("5"), "5");
}

#[test]
fn scan_takes_ascii_digits_only() {
    assert!(is_ascii_digit('0'));
    assert!(is_ascii_digit('9'));
    assert!(!is_ascii_digit('/'));
    assert!(!is_ascii_digit(':'));
    assert!(!is_ascii_digit('٣'));
    assert_eq!(scan_numeral("٣٤x8"), "8");
}

#[test]
fn parse_reads_numerals_only() {
    assert_eq!(SequenceValue::parse(""), None);
    assert_eq!(SequenceValue::parse("abc"), None);
    assert_eq!(SequenceValue::parse(".5"), None);
    assert_eq!(SequenceValue::parse("1.2.3"), None);
    assert_eq!(SequenceValue::parse("12a"), None);
    assert_eq!(SequenceValue::parse("1,5"), None);
    assert_eq!(SequenceValue::parse("-1"), None);
    assert!(SequenceValue::parse("5.").is_some());
    assert!(SequenceValue::parse("0").is_some());
}

#[test]
fn parse_gives_canonical_digits() {
    let v = value("007.2500");
    assert_eq!(v.whole(), "7");
    assert_eq!(v.fraction(), "25");
    assert_eq!(value("7"), value("007"));
    assert_eq!(value("7"), value("7."));
    assert_eq!(value("7"), value("7.0"));
    assert_eq!(value("0.5"), value("000.500"));
    assert_ne!(value("7"), value("70"));
    assert_ne!(value("0.5"), value("0.05"));
    assert_eq!(value("000").whole(), "");
    assert_eq!(value("000").fraction(), "");
}

#[test]
fn text_is_the_plain_decimal_form() {
    assert_eq!(value("3").to_text(), "3");
    assert_eq!(value("12.5").to_text(), "12.5");
    assert_eq!(value("99.9").to_text(), "99.9");
    assert_eq!(value("042").to_text(), "42");
    assert_eq!(value("0").to_text(), "0");
    assert_eq!(value("000").to_text(), "0");
    assert_eq!(value("0.0").to_text(), "0");
    assert_eq!(value("0.25").to_text(), "0.25");
    assert_eq!(value("00.250").to_text(), "0.25");
    assert_eq!(value("5.").to_text(), "5");
    assert_eq!(value("10.010").to_text(), "10.01");
    assert_eq!(value("20231015").to_text(), "20231015");
}

#[test]
fn text_matches_single_precision_on_short_numerals() {
    let numerals = [
        "0", "7", "007", "12", "042", "3.14", "99.9", "12.5", "0.25", "5.", "1.50", "100", "0.001",
        "123456", "999.999", "0.10", "65536", "1000000",
    ];
    for numeral in numerals {
        let float: f32 = numeral.parse().unwrap();
        assert_eq!(value(numeral).to_text(), format!("{}", float));
    }
}

#[test]
fn clone_keeps_the_value() {
    let v = value("12.5");
    assert_eq!(v.clone(), v);
}

#[test]
fn find_first_counts_in_characters() {
    assert_eq!(find_first("scan_012.jpg", "scan_"), Some(0));
    assert_eq!(find_first("my_scan_012.jpg", "scan_"), Some(3));
    assert_eq!(find_first("abcabc", "bc"), Some(1));
    assert_eq!(find_first("abc", ""), Some(0));
    assert_eq!(find_first("", ""), Some(0));
    assert_eq!(find_first("abc", "abcd"), None);
    assert_eq!(find_first("abc", "x"), None);
    assert_eq!(find_first("Scan", "scan"), None);
    assert_eq!(find_first("été_1", "_"), Some(3));
    assert_eq!(find_first("aab", "ab"), Some(1));
}

#[test]
fn after_anchor_gives_what_follows_the_first_occurrence() {
    assert_eq!(after_anchor("scan_012.jpg", "scan_"), "012.jpg");
    assert_eq!(after_anchor("scan_012.jpg", "xyz"), "scan_012.jpg");
    assert_eq!(after_anchor("scan_012.jpg", ""), "scan_012.jpg");
    assert_eq!(after_anchor("a-b-c", "-"), "b-c");
    assert_eq!(after_anchor("abc", "abc"), "");
    assert_eq!(after_anchor("été_1", "té"), "_1");
}

#[test]
fn written_value_reads_back_as_itself() {
    for numeral in ["0", "7", "007.2500", "99.9", "0.05", "12.", "100", "000.000", "20231015"] {
        let v = value(numeral);
        assert_eq!(SequenceValue::parse(&v.to_text()), Some(v));
    }
}
