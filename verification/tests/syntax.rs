use pbkit::syntax::{ensure_syntax, parse_proto, syntax_diagnostics, tree_diagnostics, CstNode, SyntaxError};

#[test]
fn reports_proto_syntax_errors() {
    let diagnostics = syntax_diagnostics("message Foo { string name = ; }").unwrap();
    assert!(!diagnostics.is_empty());
}

#[test]
fn accepts_valid_proto() {
    let diagnostics =
        syntax_diagnostics("syntax = \"proto3\";\nmessage Foo { string name = 1; }\n").unwrap();
    assert!(diagnostics.is_empty());
}

#[test]
fn ensure_syntax_reports_the_first_error() {
    assert_eq!(ensure_syntax("syntax = \"proto3\";\nmessage Foo {}\n"), Ok(()));
    match ensure_syntax("message Foo { string name = ; }") {
        Err(SyntaxError::Invalid(d)) => {
            assert_eq!(d.line, 1);
            let text = SyntaxError::Invalid(d.clone()).describe();
            assert!(text.starts_with("protobuf syntax error at 1:"));
        }
        other => panic!("unexpected {:?}", other),
    }
}

#[test]
fn parsed_tree_keeps_kinds_and_text() {
    let tree = parse_proto("message Foo {}\n").unwrap();
    assert_eq!(tree.kind, "source_file");
    assert!(!tree.has_error);
    let message = tree.children.iter().find(|c| c.kind == "message").unwrap();
    assert_eq!(message.text, "message Foo {}");
    assert_eq!((message.row, message.column), (0, 0));
}

fn leaf(kind: &str, row: usize, column: usize, error: bool, missing: bool) -> CstNode {
    CstNode {
        kind: kind.to_string(),
        text: String::new(),
        named: true,
        is_error: error,
        is_missing: missing,
        has_error: error || missing,
        row,
        column,
        children: Vec::new(),
    }
}

#[test]
fn tree_diagnostics_report_error_and_missing_nodes() {
    let tree = CstNode {
        kind: "source_file".to_string(),
        text: String::new(),
        named: true,
        is_error: false,
        is_missing: false,
        has_error: true,
        row: 0,
        column: 0,
        children: vec![leaf("ERROR", 2, 4, true, false), leaf(";", 3, 0, false, true)],
    };
    let diagnostics = tree_diagnostics(&tree);
    assert_eq!(diagnostics.len(), 2);
    assert_eq!((diagnostics[0].line, diagnostics[0].column), (3, 5));
    assert_eq!(diagnostics[0].message, "parse error");
    assert_eq!(diagnostics[1].message, "missing ;");
}

#[test]
fn error_free_subtrees_are_not_searched() {
    let mut tree = leaf("source_file", 0, 0, false, false);
    tree.children.push(leaf("ERROR", 0, 0, true, false));
    tree.has_error = false;
    assert!(tree_diagnostics(&tree).is_empty());
}
