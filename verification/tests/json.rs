use sudoku_lint::{findings_to_json, Finding};

#[test]
fn renders_empty_findings_as_empty_json_array() {
    assert_eq!(findings_to_json(&[]), "[]");
}

#[test]
fn renders_a_finding_as_a_json_object() {
    let findings = vec![Finding::error(1, "duplicate digit '3' in row")];
    assert_eq!(
        findings_to_json(&findings),
        "[{\"line\":1,\"severity\":\"error\",\"message\":\"duplicate digit '3' in row\"}]"
    );
}

#[test]
fn joins_multiple_findings_with_a_comma() {
    let findings = vec![Finding::error(1, "a"), Finding::error(2, "b")];
    assert_eq!(
        findings_to_json(&findings),
        "[{\"line\":1,\"severity\":\"error\",\"message\":\"a\"},\
         {\"line\":2,\"severity\":\"error\",\"message\":\"b\"}]"
    );
}

#[test]
fn escapes_quotes_and_backslashes_in_messages() {
    let findings = vec![Finding::error(1, "invalid character '\"' near \\here")];
    assert_eq!(
        findings_to_json(&findings),
        "[{\"line\":1,\"severity\":\"error\",\"message\":\"invalid character '\\\"' near \\\\here\"}]"
    );
}
