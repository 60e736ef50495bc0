use rtsp_player::platform::is_wsl;
use rtsp_player::text::{
    chars_of, contains_text, decimal_text, same_text, trim, trim_error,
};

#[test]
fn trimming_drops_white_space_around() {
    assert_eq!(trim("  \t a b \u{3000}\n"), "a b");
    assert_eq!(trim(""), "");
    assert_eq!(trim(" \u{a0} "), "");
    assert_eq!(trim("\u{200b}x"), "\u{200b}x");
}

#[test]
fn an_error_is_cut_to_one_line() {
    assert_eq!(trim_error("  first \r\nsecond"), "first");
    assert_eq!(trim_error(""), "");
    assert_eq!(trim_error("\nsecond"), "");
    let exact = "x".repeat(120);
    assert_eq!(trim_error(&exact), exact);
}

#[test]
fn a_long_error_ends_in_an_ellipsis() {
    let cut = trim_error(&"x".repeat(121));
    assert_eq!(cut, format!("{}\u{2026}", "x".repeat(119)));
    assert_eq!(cut.len(), 122);
    let wide = format!("{}\u{e9}{}", "x".repeat(117), "y".repeat(40));
    assert_eq!(trim_error(&wide), format!("{}\u{e9}\u{2026}", "x".repeat(117)));
}

#[test]
fn an_error_is_not_cut_inside_a_character() {
    let split = format!("{}\u{e9}{}", "x".repeat(118), "y".repeat(40));
    assert_eq!(trim_error(&split), format!("{}\u{2026}", "x".repeat(118)));
    let wide = format!("{}\u{1f3a5}{}", "x".repeat(116), "y".repeat(40));
    assert_eq!(trim_error(&wide), format!("{}\u{2026}", "x".repeat(116)));
    let fits = format!("{}\u{1f3a5}", "x".repeat(116));
    assert_eq!(trim_error(&fits), fits);
}

#[test]
fn texts_compare_by_their_characters() {
    assert!(same_text("abc", "abc"));
    assert!(!same_text("abc", "abd"));
    assert_eq!(chars_of("a\u{e9}"), vec!['a', '\u{e9}']);
    assert!(contains_text("abcabd", "abd"));
    assert!(contains_text("abc", ""));
    assert!(!contains_text("ab", "abc"));
    assert!(!contains_text("abcab", "abd"));
}

#[test]
fn numbers_are_written_in_decimal() {
    assert_eq!(decimal_text(0), "0");
    assert_eq!(decimal_text(9), "9");
    assert_eq!(decimal_text(10), "10");
    assert_eq!(decimal_text(907), "907");
    assert_eq!(decimal_text(u128::MAX), u128::MAX.to_string());
}

#[test]
fn wsl_is_known_by_its_kernel() {
    assert!(is_wsl(Some("5.15.90.1-Microsoft-standard-WSL2")));
    assert!(is_wsl(Some("4.4.0-MICROSOFT")));
    assert!(is_wsl(Some("6.6.0-wSl")));
    assert!(!is_wsl(Some("6.8.0-45-generic")));
    assert!(!is_wsl(None));
}
