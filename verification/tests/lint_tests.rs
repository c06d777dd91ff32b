//! Linter behaviour: tab indentation, one field per line, clean sources.

use aiprotodsl::lint::{lint, LintRule, Severity};

#[test]
fn lint_tabs_only() {
    let src = "transport {\n  x: u8;\n}";
    let msgs = lint(src);
    let tabs_only: Vec<_> = msgs
        .iter()
        .filter(|m| m.rule == LintRule::IndentationTabsOnly)
        .collect();
    assert!(!tabs_only.is_empty(), "expected IndentationTabsOnly (spaces used)");
}

#[test]
fn lint_one_field_per_line() {
    let src = "message M {\n\tx: u8; y: u8;\n}";
    let msgs = lint(src);
    let one_field: Vec<_> = msgs
        .iter()
        .filter(|m| m.rule == LintRule::OneFieldPerLine)
        .collect();
    assert!(!one_field.is_empty(), "expected OneFieldPerLine");
}

#[test]
fn lint_clean_tabs_passes() {
    let src = "transport {\n\tx: u8;\n\t}\n";
    let msgs = lint(src);
    let errors: Vec<_> = msgs.iter().filter(|m| m.severity == Severity::Error).collect();
    assert!(errors.is_empty(), "clean tab-indented source should have no errors");
}

#[test]
fn test_dsl_lint_tabs_and_one_field_per_line() {
    let ok = "transport {\n\tx: u8;\n\ty: u16;\n}\n";
    let msgs = lint(ok);
    let errors: Vec<_> = msgs.iter().filter(|m| m.severity == Severity::Error).collect();
    assert!(errors.is_empty(), "compliant source should have no lint errors");

    let spaces = "transport {\n  x: u8;\n}\n";
    let msgs = lint(spaces);
    assert!(
        msgs.iter().any(|m| m.rule == LintRule::IndentationTabsOnly),
        "spaces should trigger IndentationTabsOnly"
    );

    let two_fields = "message M {\n\tx: u8; y: u16;\n}\n";
    let msgs = lint(two_fields);
    assert!(
        msgs.iter().any(|m| m.rule == LintRule::OneFieldPerLine),
        "two fields on one line should trigger OneFieldPerLine"
    );
}

#[test]
fn lint_trailing_whitespace_is_warning() {
    let src = "message M {\n\tx: u8; \n}\n";
    let msgs = lint(src);
    assert!(msgs
        .iter()
        .any(|m| m.rule == LintRule::NoTrailingWhitespace && m.severity == Severity::Warning));
}

#[test]
fn lint_closing_brace_alone() {
    let src = "message M {\n\tx: u8; }\n";
    let msgs = lint(src);
    assert!(msgs.iter().any(|m| m.rule == LintRule::ClosingBraceAlone));
}

#[test]
fn lint_reports_line_numbers() {
    let src = "message M {\n\tx: u8;\n  y: u8;\n}\n";
    let msgs = lint(src);
    let hit: Vec<_> = msgs
        .iter()
        .filter(|m| m.rule == LintRule::IndentationTabsOnly)
        .collect();
    assert_eq!(hit.len(), 1);
    assert_eq!(hit[0].line, 3);
}
