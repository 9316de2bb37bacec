use pbkit::lint::{lint_proto, LintOptions, Severity};
use pbkit::proto_fmt::FormatOptions;

fn unsorted() -> LintOptions {
    LintOptions {
        format_options: FormatOptions {
            sort_imports: false,
            sort_fields: false,
            sort_declarations: false,
            ..FormatOptions::default()
        },
    }
}

#[test]
fn reports_parse_errors() {
    let diagnostics = lint_proto("message Foo { string name = ; }", LintOptions::default()).unwrap();
    assert_eq!(diagnostics[0].rule, "parse");
}

#[test]
fn can_skip_sort_checks() {
    let input = "syntax = \"proto3\";\npackage demo;\n\nmessage Z {}\n\nmessage A {}\n";
    assert!(!lint_proto(input, LintOptions::default()).unwrap().is_empty());
    assert!(lint_proto(input, unsorted())
        .unwrap()
        .iter()
        .all(|diagnostic| diagnostic.rule != "format"));
}

#[test]
fn reports_default_header_and_name_rules() {
    let input = "message foo { string BadName = 1; enum bad_enum { bad = 0; } }\n";
    let diagnostics = lint_proto(input, unsorted()).unwrap();
    let rules = diagnostics
        .iter()
        .map(|diagnostic| diagnostic.rule.as_str())
        .collect::<Vec<_>>();
    assert!(rules.contains(&"missing-syntax"));
    assert!(rules.contains(&"missing-package"));
    assert!(rules.contains(&"message-name"));
    assert!(rules.contains(&"field-name"));
    assert!(rules.contains(&"enum-name"));
    assert!(rules.contains(&"enum-value-name"));
}

#[test]
fn reports_proto3_required() {
    let input = "syntax = \"proto3\";\npackage demo;\nmessage Foo { required string name = 1; }\n";
    let diagnostics = lint_proto(input, unsorted()).unwrap();
    assert!(diagnostics
        .iter()
        .any(|diagnostic| diagnostic.rule == "proto3-required"));
}

#[test]
fn clean_file_has_no_findings() {
    let input = "syntax = \"proto3\";\npackage demo;\n\nmessage Foo {\n  string user_name = 1;\n}\n";
    assert_eq!(lint_proto(input, LintOptions::default()).unwrap(), vec![]);
}

#[test]
fn findings_carry_positions_and_severities() {
    let input = "message foo {}\n";
    let diagnostics = lint_proto(input, unsorted()).unwrap();
    assert_eq!(diagnostics[0].rule, "missing-syntax");
    assert_eq!((diagnostics[0].line, diagnostics[0].column), (1, 1));
    assert_eq!(diagnostics[1].rule, "missing-package");
    assert_eq!(diagnostics[1].severity, Severity::Warning);
    assert_eq!(diagnostics[2].rule, "message-name");
    assert_eq!((diagnostics[2].line, diagnostics[2].column), (1, 9));
    assert_eq!(diagnostics[2].message, "message names should be PascalCase");
}

#[test]
fn parse_findings_are_errors() {
    let diagnostics = lint_proto("message Foo { string name = ; }", LintOptions::default()).unwrap();
    assert!(diagnostics.iter().all(|d| d.rule == "parse" && d.severity == Severity::Error));
}

#[test]
fn format_finding_mentions_order_only_when_sorting() {
    let input = "syntax = \"proto3\";\npackage demo;\nmessage Foo { string a = 1; }\n";
    let sorted = lint_proto(input, LintOptions::default()).unwrap();
    assert_eq!(sorted.last().unwrap().message, "file is not in canonical pbkit fmt layout/order");
    let plain = lint_proto(input, unsorted()).unwrap();
    assert_eq!(plain.last().unwrap().message, "file is not in canonical pbkit fmt layout");
}

#[test]
fn snake_case_rules_reject_double_and_trailing_underscores() {
    let input = "syntax = \"proto3\";\npackage demo;\n\nmessage Foo {\n  string a__b = 1;\n  string c_ = 2;\n}\n\nenum Kind {\n  KIND__A = 0;\n  KIND_B_ = 1;\n}\n";
    let diagnostics = lint_proto(input, unsorted()).unwrap();
    let fields = diagnostics.iter().filter(|d| d.rule == "field-name").count();
    let values = diagnostics.iter().filter(|d| d.rule == "enum-value-name").count();
    assert_eq!((fields, values), (2, 2));
}

#[test]
fn findings_render_as_report_lines() {
    let diagnostics = lint_proto("message foo {}\n", unsorted()).unwrap();
    assert_eq!(
        diagnostics[2].report_line("a.proto"),
        "a.proto:1:9: warning[message-name] message names should be PascalCase"
    );
}
