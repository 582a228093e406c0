use etanol::diagnostics::{diagnostics_from_captures, diagnostics_from_stderr, DiagnosticsError};

#[test]
fn empty_error_output_gives_no_diagnostics() {
    assert!(diagnostics_from_stderr("").unwrap().is_empty());
}

#[test]
fn error_line_gives_a_diagnostic() {
    let stderr = "script.kts:3:7: error: unresolved reference: foo\n";
    let d = diagnostics_from_stderr(stderr).unwrap();
    assert_eq!(d.len(), 1);
    assert_eq!(d[0].start_line, 2);
    assert_eq!(d[0].start_character, 6);
    assert_eq!(d[0].end_line, 2);
    assert_eq!(d[0].end_character, 12);
    assert_eq!(d[0].message, "unresolved reference: foo");
}

#[test]
fn warnings_are_not_diagnostics() {
    let stderr = "script.kts:1:1: warning: unused variable\nscript.kts:2:4: error: expecting ')'\n";
    let d = diagnostics_from_stderr(stderr).unwrap();
    assert_eq!(d.len(), 1);
    assert_eq!(d[0].start_line, 1);
    assert_eq!(d[0].start_character, 3);
    assert_eq!(d[0].message, "expecting ')'");
}

#[test]
fn line_zero_is_out_of_range() {
    let stderr = "script.kts:0:5: error: odd\n";
    assert_eq!(diagnostics_from_stderr(stderr).err(), Some(DiagnosticsError::NumberOutOfRange));
}

#[test]
fn huge_column_is_out_of_range() {
    let stderr = "script.kts:1:4294967295: error: odd\n";
    assert_eq!(diagnostics_from_stderr(stderr).err(), Some(DiagnosticsError::NumberOutOfRange));
    let stderr = "script.kts:1:99999999999: error: odd\n";
    assert_eq!(diagnostics_from_stderr(stderr).err(), Some(DiagnosticsError::NumberOutOfRange));
}

#[test]
fn captured_rows_give_diagnostics() {
    let rows = vec![
        vec![Some("10".to_string()), Some("2".to_string()), Some("boom".to_string())],
        vec![Some("1".to_string()), None, Some("skipped".to_string())],
        vec![Some("+4".to_string()), Some("4294967290".to_string()), Some("edge".to_string())],
    ];
    let d = diagnostics_from_captures(&rows);
    assert_eq!(d.len(), 2);
    assert_eq!((d[0].start_line, d[0].start_character, d[0].end_character), (9, 1, 7));
    assert_eq!((d[1].start_line, d[1].start_character, d[1].end_character), (3, 4294967289, 4294967295));
    assert_eq!(d[1].message, "edge");
}
