use roses::text::{str_contains, str_replace, strip_control_chars, trim_str};

#[test]
fn strips_esc_bel_and_newlines_keeping_visible_text() {
    let hostile = "red\x1b[31mtext\x07\n";
    assert_eq!(strip_control_chars(hostile), "red[31mtext");
}

#[test]
fn leaves_plain_unicode_untouched() {
    assert_eq!(strip_control_chars("Plain — title, 42% ✓"), "Plain — title, 42% ✓");
}

#[test]
fn strip_drops_c1_and_delete() {
    assert_eq!(strip_control_chars("a\u{7f}b\u{85}c\u{9b}d"), "abcd");
}

#[test]
fn contains_and_replace_match_std() {
    assert!(str_contains("w3m %s", "%s"));
    assert!(!str_contains("firefox", "%s"));
    assert!(str_contains("x", ""));
    assert_eq!(str_replace("a%sb%s", "%s", "U"), "aUbU");
    assert_eq!(str_replace("aaa", "aa", "b"), "ba");
    assert_eq!(str_replace("none", "%s", "U"), "none");
}

#[test]
fn trim_removes_unicode_whitespace() {
    assert_eq!(trim_str("\u{3000} hi \t\n"), "hi");
    assert_eq!(trim_str("   "), "");
}
