use etanol::completion::{
    completion_items, completions_for_document, context_from_match, get_code_context,
    CompletionKind, Context,
};

#[test]
fn detects_function_keyword_context() {
    assert!(matches!(get_code_context("fun main() {}", 0), Ok(Context::Function)));
}

#[test]
fn detects_variable_keyword_context() {
    assert!(matches!(get_code_context("val x = 1", 0), Ok(Context::Variable)));
}

#[test]
fn falls_back_to_keyword_context_for_code_without_val_or_fun() {
    assert!(matches!(get_code_context("println(1)", 0), Ok(Context::Keyword)));
}

#[test]
fn empty_code_falls_back_to_keyword_context() {
    assert!(matches!(get_code_context("", 0), Ok(Context::Keyword)));
}

#[test]
#[should_panic]
fn line_number_used_as_byte_offset_panics_on_short_documents() {
    let code = "val x = 1"; // 9 bytes
    let _ = get_code_context(code, 100); // "line 100" treated as byte offset 100
}

#[test]
fn fun_wins_over_val() {
    assert_eq!(get_code_context("val f = 1\nfun g() {}", 3), Ok(Context::Function));
}

#[test]
fn context_pattern_looks_at_the_whole_document_for_fun() {
    // the byte offset only decides where the pattern is run; `fun` is looked
    // for in the whole document
    assert_eq!(get_code_context("fun main() {}", 13), Ok(Context::Function));
}

#[test]
fn context_without_a_match_is_keyword() {
    assert_eq!(context_from_match(false, "fun main() {}"), Context::Keyword);
    assert_eq!(context_from_match(true, "fun main() {}"), Context::Function);
    assert_eq!(context_from_match(true, "val v"), Context::Variable);
    assert_eq!(context_from_match(true, "fu n va l"), Context::Keyword);
}

#[test]
fn multibyte_offset_on_char_boundary() {
    // "é" takes two bytes; offset 2 is a boundary
    assert_eq!(get_code_context("éval", 2), Ok(Context::Variable));
}

#[test]
fn keyword_context_offers_four_keywords() {
    let items = completion_items(Context::Keyword);
    let labels: Vec<&str> = items.iter().map(|i| i.label.as_str()).collect();
    assert_eq!(labels, vec!["val", "fun", "if", "else"]);
    assert!(items.iter().all(|i| i.kind == CompletionKind::Keyword));
    assert_eq!(items[0].insert_text, "val name = \"Kotlin\"");
    assert_eq!(items[0].documentation, "Insert a val keyword");
    assert_eq!(items[3].insert_text, "else { }");
}

#[test]
fn function_context_offers_print_functions() {
    let items = completion_items(Context::Function);
    assert_eq!(items.len(), 2);
    assert_eq!(items[0].label, "println");
    assert_eq!(items[0].insert_text, "println(\"Hello, Kotlin!\")");
    assert_eq!(items[0].documentation, "Insert a function call for println");
    assert_eq!(items[1].label, "print");
    assert_eq!(items[1].kind, CompletionKind::Function);
}

#[test]
fn variable_context_offers_a_name() {
    let items = completion_items(Context::Variable);
    assert_eq!(items.len(), 1);
    assert_eq!(items[0].label, "name");
    assert_eq!(items[0].kind, CompletionKind::Variable);
    assert_eq!(items[0].documentation, "Insert a variable named name");
}

#[test]
fn handle_completion_returns_function_completions_for_fun_context() {
    let items = completions_for_document("fun main() {}", 0).unwrap();
    assert!(!items.is_empty());
    assert!(items.iter().any(|i| i.label == "println"));
}
