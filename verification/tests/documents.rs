use etanol::documents::DocumentStore;

fn s(x: &str) -> String {
    x.to_string()
}

#[test]
fn did_open_stores_document_text() {
    let mut docs = DocumentStore::new();
    let check = docs.did_open(s("file:///a.kt"), s("fun main() {}"));
    assert_eq!(docs.get(&s("file:///a.kt")).map(String::as_str), Some("fun main() {}"));
    assert_eq!(check.uri, "file:///a.kt");
    assert_eq!(check.text, "fun main() {}");
}

#[test]
fn did_change_with_full_text_updates_document() {
    let mut docs = DocumentStore::new();
    docs.did_open(s("file:///a.kt"), s("fun main() {}"));
    let check = docs.did_change(s("file:///a.kt"), vec![s("fun main() { println(1) }")]);
    assert_eq!(
        docs.get(&s("file:///a.kt")).map(String::as_str),
        Some("fun main() { println(1) }")
    );
    assert_eq!(check.unwrap().text, "fun main() { println(1) }");
}

#[test]
fn did_change_with_no_content_changes_is_a_no_op() {
    let mut docs = DocumentStore::new();
    docs.did_open(s("file:///a.kt"), s("fun main() {}"));
    let check = docs.did_change(s("file:///a.kt"), vec![]);
    assert!(check.is_none());
    assert_eq!(docs.get(&s("file:///a.kt")).map(String::as_str), Some("fun main() {}"));
}

#[test]
fn did_change_for_unopened_document_inserts_it() {
    let mut docs = DocumentStore::new();
    docs.did_change(s("file:///never-opened.kt"), vec![s("val x = 1")]);
    assert_eq!(docs.get(&s("file:///never-opened.kt")).map(String::as_str), Some("val x = 1"));
}

#[test]
fn did_change_uses_only_the_first_change() {
    let mut docs = DocumentStore::new();
    docs.did_change(s("file:///a.kt"), vec![s("first"), s("second")]);
    assert_eq!(docs.get(&s("file:///a.kt")).map(String::as_str), Some("first"));
}

#[test]
fn did_close_removes_document() {
    let mut docs = DocumentStore::new();
    docs.did_open(s("file:///a.kt"), s("fun main() {}"));
    docs.did_close(&s("file:///a.kt"));
    assert!(!docs.contains_key(&s("file:///a.kt")));
}

#[test]
fn did_close_for_unknown_document_does_not_panic() {
    let mut docs = DocumentStore::new();
    docs.did_close(&s("file:///never-opened.kt"));
    assert!(docs.is_empty());
}

#[test]
fn test_lsp_documents_store_starts_empty() {
    let docs = DocumentStore::new();
    assert!(docs.is_empty());
}

#[test]
fn documents_are_kept_apart() {
    let mut docs = DocumentStore::new();
    docs.did_open(s("file:///a.kt"), s("A"));
    docs.did_open(s("file:///b.kt"), s("B"));
    docs.did_open(s("file:///a.kt"), s("A2"));
    docs.did_close(&s("file:///b.kt"));
    assert_eq!(docs.get(&s("file:///a.kt")).map(String::as_str), Some("A2"));
    assert_eq!(docs.get(&s("file:///b.kt")), None);
    assert!(!docs.is_empty());
    docs.did_close(&s("file:///a.kt"));
    assert!(docs.is_empty());
}
