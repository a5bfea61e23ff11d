use eafutil::text::{ipa2ascii, process_string, StripPattern};

#[test]
fn no_options_returns_input_untouched() {
    let s = "  Héllo,\twörld!  ";
    assert_eq!(process_string(s, None, None, None, None), s);
}

#[test]
fn empty_input_stays_empty() {
    let ws = '_';
    assert_eq!(process_string("", Some(&'_'), Some(&ws), None, Some(5)), "");
}

#[test]
fn truncates_to_scalar_values_not_bytes() {
    assert_eq!(process_string("åäöüß", None, None, None, Some(3)), "åäö");
    assert_eq!(process_string("abc", None, None, None, Some(10)), "abc");
    assert_eq!(process_string("abc", None, None, None, Some(0)), "");
}

#[test]
fn truncation_bound_holds_before_trim() {
    let s = "one two three four";
    let r = process_string(s, None, None, None, Some(7));
    assert_eq!(r, "one two");
    assert!(r.chars().count() <= 7);
    let r2 = process_string("  ab  cd", None, Some(&'_'), None, Some(5));
    assert_eq!(r2, "ab");
}

#[test]
fn strip_pattern_removes_character_class() {
    let p = StripPattern::new("[,;:]").unwrap();
    assert_eq!(process_string("a,b;c:d", None, None, Some(&p), None), "abcd");
    assert_eq!(p.as_str(), "[,;:]");
}

#[test]
fn invalid_pattern_is_refused() {
    assert!(StripPattern::new("[unclosed").is_none());
}

#[test]
fn whitespace_and_ascii_substitution() {
    assert_eq!(process_string(" a b\tc ", None, Some(&'-'), None, None), "a-b-c");
    assert_eq!(process_string(" añb c ", Some(&'?'), None, None, None), "a?b c");
    assert_eq!(process_string(" añb c ", Some(&'?'), Some(&'_'), None, None), "a?b_c");
    // a non-ASCII whitespace substitute is itself replaced by the ASCII one
    assert_eq!(process_string("a b", Some(&'?'), Some(&'é'), None, None), "a?b");
}

#[test]
fn unicode_whitespace_is_trimmed() {
    assert_eq!(process_string("\u{3000}x\u{a0}", None, Some(&'_'), None, None), "x");
}

#[test]
fn ipa_fallbacks() {
    assert_eq!(ipa2ascii(&'a', None), 'b');
    assert_eq!(ipa2ascii(&'ʃ', None), '_');
    assert_eq!(ipa2ascii(&'ʃ', Some(&'x')), 'x');
}

#[test]
fn trims_whenever_an_option_is_given() {
    assert_eq!(process_string(" a", None, None, None, Some(2)), "a");
    assert_eq!(process_string("  ab  ", None, None, None, Some(10)), "ab");
    let p = StripPattern::new("x").unwrap();
    assert_eq!(process_string(" x a x ", None, None, Some(&p), None), "a");
}
