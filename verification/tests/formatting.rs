use rua::print_format::{date, opt, trunc};
use rua::alpm_wrapper::{ordering_from_vercmp, parse_foreign_line};
use std::cmp::Ordering;

#[test]
fn optional_fields_show_their_value_or_none() {
    assert_eq!(opt(&Some("x".to_string())), "x");
    assert_eq!(opt(&None), "None");
}

#[test]
fn dates_format_as_utc() {
    assert_eq!(date(0).unwrap(), "1970-01-01 00:00:00 UTC");
    assert_eq!(date(1431648000).unwrap(), "2015-05-15 00:00:00 UTC");
    assert!(date(i64::MAX).is_err());
}

#[test]
fn truncation_keeps_short_text_and_marks_cuts() {
    assert_eq!(trunc("short", 28), "short");
    assert_eq!(trunc("abcdefgh", 5), "abc..");
    assert_eq!(trunc("abcdefgh", 1), "..");
}

#[test]
fn foreign_lines_split_at_their_single_space() {
    assert_eq!(parse_foreign_line("pkg 1.0-1").unwrap(), ("pkg".to_string(), "1.0-1".to_string()));
    assert!(parse_foreign_line("pkg").is_err());
    assert!(parse_foreign_line("a b c").is_err());
}

#[test]
fn vercmp_numbers_map_to_orderings() {
    assert_eq!(ordering_from_vercmp(-1), Ordering::Less);
    assert_eq!(ordering_from_vercmp(0), Ordering::Equal);
    assert_eq!(ordering_from_vercmp(1), Ordering::Greater);
}
