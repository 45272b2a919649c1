use reconciler::fuzzy::{distance, is_near, merge_near};
use reconciler::number::{int_to_string, nat_to_string, read_micro, round_micro, MICRO_LIMIT};
use reconciler::scale::{detect_scale, isqrt};
use reconciler::text::{chars_of, join, sort_strings, str_eq, str_le, string_of, trim_quotes};

fn strings(items: &[&str]) -> Vec<String> {
    items.iter().map(|s| s.to_string()).collect()
}

#[test]
fn characters_round_trip() {
    let chars = chars_of("añ→z");
    assert_eq!(chars, vec!['a', 'ñ', '→', 'z']);
    assert_eq!(string_of(&chars), "añ→z");
    assert_eq!(string_of(&Vec::new()), "");
}

#[test]
fn strings_compare_by_code_point() {
    assert!(str_eq("abc", "abc"));
    assert!(!str_eq("abc", "abd"));
    assert!(!str_eq("abc", "ab"));
    assert!(str_le("", ""));
    assert!(str_le("", "a"));
    assert!(!str_le("a", ""));
    assert!(str_le("ab", "abc"));
    assert!(!str_le("abc", "ab"));
    assert!(str_le("Z", "a"));
    assert!(!str_le("a", "Z"));
    assert!(str_le("10", "9"));
    assert!(str_le("z", "é"));
}

#[test]
fn quotes_are_trimmed_at_both_ends_only() {
    assert_eq!(trim_quotes("\"T0\""), "T0");
    assert_eq!(trim_quotes("T0"), "T0");
    assert_eq!(trim_quotes("\"\"a\"b\"\"\""), "a\"b");
    assert_eq!(trim_quotes("\"\"\""), "");
    assert_eq!(trim_quotes(""), "");
    assert_eq!(trim_quotes("12.5"), "12.5");
}

#[test]
fn strings_are_joined_with_the_separator_between() {
    assert_eq!(join(&strings(&[]), ", "), "");
    assert_eq!(join(&strings(&["a"]), ", "), "a");
    assert_eq!(join(&strings(&["a", "b", ""]), ", "), "a, b, ");
}

#[test]
fn sorting_is_ascending_and_keeps_every_string() {
    assert_eq!(
        sort_strings(&strings(&["pear", "apple", "fig", "apple", "Fig"])),
        strings(&["Fig", "apple", "apple", "fig", "pear"])
    );
    assert_eq!(sort_strings(&strings(&[])), strings(&[]));
}

#[test]
fn sorting_does_not_depend_on_the_order_given() {
    let one = sort_strings(&strings(&["c", "a", "b"]));
    let other = sort_strings(&strings(&["b", "c", "a"]));
    assert_eq!(one, other);
    assert_eq!(sort_strings(&one), one);
}

#[test]
fn numbers_are_read_in_millionths() {
    assert_eq!(read_micro("0"), Some(0));
    assert_eq!(read_micro("-0"), Some(0));
    assert_eq!(read_micro("1.5"), Some(1_500_000));
    assert_eq!(read_micro("-0.5"), Some(-500_000));
    assert_eq!(read_micro("12"), Some(12_000_000));
    assert_eq!(read_micro("0.000001"), Some(1));
    assert_eq!(read_micro("1.2345678"), Some(1_234_567));
    assert_eq!(read_micro("-1.9999999"), Some(-1_999_999));
    assert_eq!(read_micro("1e2"), Some(100_000_000));
    assert_eq!(read_micro("1E+2"), Some(100_000_000));
    assert_eq!(read_micro("2.5e-3"), Some(2_500));
    assert_eq!(read_micro("1e-7"), Some(0));
    assert_eq!(read_micro("5.684341886080802e-14"), Some(0));
    assert_eq!(read_micro("123456789e-4"), Some(12_345_678_900));
    assert_eq!(read_micro("0e99999999999999999999999999"), Some(0));
    assert_eq!(read_micro("7e-99999999999999999999999999"), Some(0));
}

#[test]
fn numbers_above_the_limit_are_not_read() {
    assert_eq!(read_micro("2147483648"), Some(MICRO_LIMIT));
    assert_eq!(read_micro("-2147483648"), Some(-MICRO_LIMIT));
    assert_eq!(read_micro("2147483648.000001"), None);
    assert_eq!(read_micro("1e16"), None);
    assert_eq!(read_micro("1.2345678901234568e+22"), None);
    assert_eq!(read_micro("1e99999999999999999999999999"), None);
    assert_eq!(read_micro("99999999999999999999999999999999999999999999"), None);
}

#[test]
fn text_that_is_no_number_is_not_read() {
    for text in ["", "-", ".", ".5", "5.", "1.2.3", "1e", "1e+", "abc", " 1", "1 ", "+1", "1f", "--1"] {
        assert_eq!(read_micro(text), None, "{:?}", text);
    }
}

#[test]
fn millionths_round_halves_away_from_zero() {
    assert_eq!(round_micro(0), 0);
    assert_eq!(round_micro(499_999), 0);
    assert_eq!(round_micro(500_000), 1);
    assert_eq!(round_micro(1_499_999), 1);
    assert_eq!(round_micro(1_500_000), 2);
    assert_eq!(round_micro(-499_999), 0);
    assert_eq!(round_micro(-500_000), -1);
    assert_eq!(round_micro(-1_500_000), -2);
    assert_eq!(round_micro(2 * MICRO_LIMIT), 4_294_967_296);
}

#[test]
fn integers_are_written_in_decimal() {
    assert_eq!(int_to_string(0), "0");
    assert_eq!(int_to_string(7), "7");
    assert_eq!(int_to_string(10), "10");
    assert_eq!(int_to_string(-1), "-1");
    assert_eq!(int_to_string(-2147483648), "-2147483648");
    assert_eq!(int_to_string(i128::MAX), i128::MAX.to_string());
    assert_eq!(int_to_string(i128::MIN), i128::MIN.to_string());
}

#[test]
fn square_roots_are_rounded_down() {
    assert_eq!(isqrt(0), 0);
    assert_eq!(isqrt(1), 1);
    assert_eq!(isqrt(3), 1);
    assert_eq!(isqrt(4), 2);
    assert_eq!(isqrt(99), 9);
    assert_eq!(isqrt(10_000_000_000), 100_000);
    assert_eq!(isqrt(2_000_000), 1414);
    assert_eq!(isqrt(u128::MAX), u64::MAX);
}

#[test]
fn a_scale_is_a_number_with_a_metric_unit() {
    let scale = detect_scale("scale bar 5 cm").unwrap();
    assert_eq!(scale.number, "5");
    assert_eq!(scale.micro, 5_000_000);
    assert_eq!(scale.units, "cm");
    let scale = detect_scale("T1: ruler 2.5mm (top)").unwrap();
    assert_eq!((scale.number.as_str(), scale.micro, scale.units.as_str()), ("2.5", 2_500_000, "mm"));
    let scale = detect_scale("10 \t m").unwrap();
    assert_eq!((scale.number.as_str(), scale.units.as_str()), ("10", "m"));
    let scale = detect_scale("1.2.3 cm or 4 dm").unwrap();
    assert_eq!((scale.number.as_str(), scale.units.as_str()), ("4", "dm"));
}

#[test]
fn a_label_without_a_scale_names_none() {
    for label in ["wing length", "", "5", "5 meters", "5 mmm", "cm 5", "5 km", "T5m_x", "5. cm", "x5 c m"] {
        assert_eq!(detect_scale(label), None, "{:?}", label);
    }
}

#[test]
fn the_edit_distance_counts_the_fewest_edits() {
    assert_eq!(distance("", ""), 0);
    assert_eq!(distance("abc", "abc"), 0);
    assert_eq!(distance("", "abc"), 3);
    assert_eq!(distance("abc", ""), 3);
    assert_eq!(distance("kitten", "sitting"), 3);
    assert_eq!(distance("flaw", "lawn"), 2);
    assert_eq!(distance("colour", "color"), 1);
    assert_eq!(distance("é", "e"), 1);
    assert!(is_near("colour", "color", 1));
    assert!(!is_near("colour", "Color", 1));
    assert!(is_near("same", "same", 0));
}

#[test]
fn near_texts_are_merged_into_the_first_of_them() {
    let texts = strings(&["oak", "pine", "oaks", "pines", "oakes", "fir"]);
    let refs: Vec<&String> = texts.iter().collect();
    let heads = |d: usize| -> Vec<String> {
        merge_near(&refs, d).into_iter().cloned().collect()
    };
    assert_eq!(heads(0), texts);
    assert_eq!(heads(1), strings(&["oak", "pine", "oak", "pine", "oakes", "fir"]));
    assert_eq!(heads(2), strings(&["oak", "pine", "oak", "pine", "oak", "fir"]));
    assert_eq!(heads(9), strings(&["oak", "oak", "oak", "oak", "oak", "oak"]));
}

#[test]
fn natural_numbers_are_written_in_decimal() {
    assert_eq!(nat_to_string(0), "0");
    assert_eq!(nat_to_string(907), "907");
    assert_eq!(nat_to_string(u128::MAX), u128::MAX.to_string());
}
