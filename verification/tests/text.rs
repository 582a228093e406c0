use etanol::pattern::{Pattern, PatternError};
use etanol::text::{contains_chars, split_lines, trim_range};

fn chars(s: &str) -> Vec<char> {
    s.chars().collect()
}

#[test]
fn trim_matches_std_trim() {
    for s in ["", "  ", "a", "  a b  ", "\t\u{a0}x\u{3000}", "\r\nline\n", "\u{200b}x"] {
        let v = chars(s);
        assert_eq!(trim_range(&v, 0, v.len()), chars(s.trim()), "input {:?}", s);
    }
}

#[test]
fn trimming_twice_is_trimming_once() {
    let v = chars("  \tvalue \n");
    let once = trim_range(&v, 0, v.len());
    let twice = trim_range(&once, 0, once.len());
    assert_eq!(once, twice);
    assert_eq!(once, chars("value"));
}

#[test]
fn split_lines_matches_std_lines() {
    for s in ["", "a", "a\n", "a\n\n", "\n", "a\r\nb", "a\rb\n", "x\r", "x\r\n\r\n", "one\ntwo\nthree"] {
        let expected: Vec<Vec<char>> = s.lines().map(chars).collect();
        assert_eq!(split_lines(&chars(s)), expected, "input {:?}", s);
    }
}

#[test]
fn contains_chars_finds_runs() {
    assert!(contains_chars(&chars("fun main"), &chars("fun")));
    assert!(contains_chars(&chars("abc"), &chars("")));
    assert!(!contains_chars(&chars("fu n"), &chars("fun")));
    assert!(!contains_chars(&chars("fu"), &chars("fun")));
    assert!(contains_chars(&chars("xxfun"), &chars("fun")));
}

#[test]
fn invalid_pattern_is_refused() {
    assert_eq!(Pattern::new("foo(bar").err(), Some(PatternError));
    assert!(Pattern::new(r"\bval\b").is_ok());
}
