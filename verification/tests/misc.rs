use etanol::capabilities::{server_capabilities, TextSyncKind};
use etanol::nix::{extract_tasks, parse_nix};
use etanol::temp_file::temp_file_name;
use etanol::text::parse_u32_str;

#[test]
fn advertises_full_sync_and_basic_completion() {
    let c = server_capabilities();
    assert_eq!(c.text_document_sync, Some(TextSyncKind::Full));
    assert!(c.completion_provider);
}

#[test]
fn each_call_gets_a_distinct_temp_file() {
    let a = temp_file_name(4242, 0);
    let b = temp_file_name(4242, 1);
    assert_ne!(a, b);
    assert_eq!(a, "etanol_4242_0.kts");
    assert_eq!(b, "etanol_4242_1.kts");
    assert_ne!(temp_file_name(12, 3), temp_file_name(1, 23));
    assert_eq!(temp_file_name(u32::MAX, u64::MAX), "etanol_4294967295_18446744073709551615.kts");
}

#[test]
fn parse_u32_like_std() {
    for s in ["0", "7", "+12", "0042", "4294967295", "4294967296", "", "+", "-", "-1", "1a", " 1", "٣"] {
        assert_eq!(parse_u32_str(s), s.parse::<u32>().ok(), "input {:?}", s);
    }
}

#[test]
fn extract_tasks_strips_the_prefix() {
    let texts = vec!["tasks.build".to_string(), "other".to_string(), "tasks.".to_string(), "task.x".to_string()];
    assert_eq!(extract_tasks(&texts), vec!["build".to_string(), "".to_string()]);
}

#[test]
fn parse_nix_reads_top_level_task() {
    assert_eq!(parse_nix("tasks.build"), vec!["build".to_string()]);
    assert!(parse_nix("{ a = 1; }").is_empty());
}
