use conc_bug_detector::display::dot_escape;

#[test]
fn escapes_quotes_backslashes_and_newlines() {
    assert_eq!(dot_escape("a\"b\\c\nd"), "a\\\"b\\\\c\\nd");
}

#[test]
fn escapes_braces_and_angle_brackets() {
    assert_eq!(dot_escape("{a}<b>"), "\\{a\\}\\<b\\>");
}

#[test]
fn strips_carriage_returns() {
    assert_eq!(dot_escape("a\rb"), "ab");
}

/// Reads an escaped text back.
fn unescape(s: &str) -> String {
    let mut out = String::new();
    let mut chars = s.chars();
    while let Some(c) = chars.next() {
        if c == '\\' {
            match chars.next() {
                Some('n') => out.push('\n'),
                Some(d) => out.push(d),
                None => panic!("an escape that escapes nothing"),
            }
        } else {
            assert_ne!(c, '"');
            out.push(c);
        }
    }
    out
}

#[test]
fn escaped_texts_can_be_read_back() {
    for text in ["", "plain", "\"\\\n", "{<a|b>}", "\\n is not a new line", "ü\t\"ß\""] {
        assert_eq!(unescape(&dot_escape(text)), text);
    }
}
