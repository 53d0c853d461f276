use redgex::chars::parse_numeral;
use redgex::parse::{expand_class, get_end_of_static};

fn chars(s: &str) -> Vec<char> {
    s.chars().collect()
}

#[test]
fn negated_shorthand_is_refused_in_brackets() {
    // a negated shorthand cannot stand inside brackets
    assert!(expand_class(&chars("\\W")).is_none());
}

#[test]
fn class_ranges() {
    assert_eq!(Some(chars("0123456789")), expand_class(&chars("0-9")));
    assert_eq!(Some(chars("ABCDEFGHIJKLMNOPQRSTUVWXYZabcdefghijklmnopqrstuvwxyz")), expand_class(&chars("A-z")));
    assert_eq!(Some(chars("CDE")), expand_class(&chars("C-E")));
    assert_eq!(Some(chars("")), expand_class(&chars("b-a")));
    assert!(expand_class(&chars("c-a")).is_none());
    assert!(expand_class(&chars("a-Z")).is_none());
    assert!(expand_class(&chars("-a")).is_none());
    assert_eq!(Some(chars(" \t\nx")), expand_class(&chars("\\sx")));
}

#[test]
fn numeric_escape_ends_a_literal_run() {
    assert_eq!(3, get_end_of_static("abc\\7"));
    assert_eq!(2, get_end_of_static("ab\\1c"));
    assert_eq!(5, get_end_of_static("ab\\xc"));
    assert_eq!(3, get_end_of_static("ab\\w"));
    assert_eq!(0, get_end_of_static("*"));
    assert_eq!(0, get_end_of_static(""));
}

#[test]
fn numerals() {
    assert_eq!(Some(12), parse_numeral(&chars("12")));
    assert_eq!(Some(12), parse_numeral(&chars("+12")));
    assert_eq!(None, parse_numeral(&chars("")));
    assert_eq!(None, parse_numeral(&chars("+")));
    assert_eq!(None, parse_numeral(&chars("-1")));
    assert_eq!(None, parse_numeral(&chars("1a")));
    assert_eq!(None, parse_numeral(&chars("99999999999999999999999")));
    assert_eq!(Some(usize::MAX), parse_numeral(&chars(&usize::MAX.to_string())));
}
