use etanol::fixtures::{
    fixture_stem, load_corpus_fixtures, load_gasoline_fixtures, parse_corpus_file, sort_by_name,
};

fn pair(a: &str, b: &str) -> (String, String) {
    (a.to_string(), b.to_string())
}

#[test]
fn parse_corpus_file_extracts_named_cases() {
    let content = "\
==================
Top-level function
==================

fun main() {}

---

(source_file
  (function_declaration))

==================
Empty class
==================

class Foo

---

(source_file
  (class_declaration))
";

    let cases = parse_corpus_file(content);

    assert_eq!(
        cases,
        vec![
            ("Top-level function".to_string(), "fun main() {}".to_string()),
            ("Empty class".to_string(), "class Foo".to_string()),
        ]
    );
}

#[test]
fn load_corpus_fixtures_finds_vendored_cases() {
    let corpus = "==================\nClass\n==================\n\nclass A\n\n---\n\n(source_file)\n";
    let fixtures = load_corpus_fixtures(vec![pair("classes", corpus)]);
    assert!(
        !fixtures.is_empty(),
        "expected at least one case from vendor/tree-sitter-kotlin/test/corpus"
    );
}

#[test]
fn load_gasoline_fixtures_finds_vendored_files() {
    let fixtures = load_gasoline_fixtures(vec![pair("TestRunner", "class TestRunner")]);
    assert!(
        !fixtures.is_empty(),
        "expected at least one .kt file under tests/fixtures/gasoline"
    );
}

#[test]
fn corpus_fixture_names_join_file_and_case() {
    let a = "===\nFirst\n===\nval a = 1\n---\n(x)\n===\nSecond\n===\nval b = 2\n---\n";
    let b = "===\nOnly\n===\n  fun f() {}  \n---\n";
    let fixtures = load_corpus_fixtures(vec![pair("zeta", a), pair("alpha", b)]);
    assert_eq!(
        fixtures,
        vec![
            pair("alpha::Only", "fun f() {}"),
            pair("zeta::First", "val a = 1"),
            pair("zeta::Second", "val b = 2"),
        ]
    );
}

#[test]
fn corpus_cases_with_empty_source_are_dropped() {
    let content = "===\nEmpty\n===\n\n   \n---\n(x)\n===\nFull\n===\nclass B\n---\n";
    assert_eq!(parse_corpus_file(content), vec![pair("Full", "class B")]);
}

#[test]
fn corpus_multi_line_names_and_sources() {
    let content = "junk before\n====\nTwo\nwords\n====\nfun a() {}\r\nfun b() {}\n----\n";
    assert_eq!(parse_corpus_file(content), vec![pair("Two words", "fun a() {}\nfun b() {}")]);
}

#[test]
fn short_rules_are_not_rules() {
    let content = "==\nnot a case\n==\n";
    assert!(parse_corpus_file(content).is_empty());
    assert!(parse_corpus_file("").is_empty());
}

#[test]
fn corpus_case_without_closing_rule() {
    let content = "===\nDangling name\n";
    assert!(parse_corpus_file(content).is_empty());
    let content = "===\nNo dashes\n===\nval x = 1\n";
    assert_eq!(parse_corpus_file(content), vec![pair("No dashes", "val x = 1")]);
}

#[test]
fn gasoline_fixtures_are_sorted_by_name() {
    let fixtures = load_gasoline_fixtures(vec![
        pair("b", "2"),
        pair("B", "1"),
        pair("a", "3"),
        pair("ab", "4"),
    ]);
    assert_eq!(fixtures, vec![pair("B", "1"), pair("a", "3"), pair("ab", "4"), pair("b", "2")]);
}

#[test]
fn sort_keeps_order_of_equal_names() {
    let sorted = sort_by_name(&vec![pair("x", "first"), pair("a", "0"), pair("x", "second")]);
    assert_eq!(sorted, vec![pair("a", "0"), pair("x", "first"), pair("x", "second")]);
}

#[test]
fn fixture_stem_follows_path_extension_rules() {
    assert_eq!(fixture_stem("TestRunner.kt", "kt"), Some("TestRunner".to_string()));
    assert_eq!(fixture_stem("archive.tar.kt", "kt"), Some("archive.tar".to_string()));
    assert_eq!(fixture_stem("README.md", "kt"), None);
    assert_eq!(fixture_stem(".kt", "kt"), None);
    assert_eq!(fixture_stem("kt", "kt"), None);
    assert_eq!(fixture_stem("..", ""), None);
    assert_eq!(fixture_stem("name.", ""), Some("name".to_string()));
    assert_eq!(fixture_stem("a.kts", "kt"), None);
}
