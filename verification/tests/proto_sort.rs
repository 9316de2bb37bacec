use pbkit::proto_sort::{sort_proto, SortKey};

#[test]
fn sorts_messages_enums_and_fields() {
    let input = r#"message Z {
  string b = 2;
  int32 a = 1;
}
enum A {
  B = 1;
  A = 0;
}
"#;
    let out = sort_proto(input, SortKey::Number).unwrap();
    assert!(out.find("enum A").unwrap() < out.find("message Z").unwrap());
    assert!(out.find("int32 a = 1").unwrap() < out.find("string b = 2").unwrap());
}

#[test]
fn sorted_text_is_exact() {
    let input = "message Z {\n  string b = 2;\n  int32 a = 1;\n}\nenum A {\n  B = 1;\n  A = 0;\n}\n";
    let out = sort_proto(input, SortKey::Number).unwrap();
    assert_eq!(out, "enum A {\n  A = 0;\n  B = 1;\n}\nmessage Z {\n  int32 a = 1;\n  string b = 2;\n}\n");
}

#[test]
fn sorts_fields_by_name_when_asked() {
    let input = "message M {\n  int32 zeta = 1;\n  int32 alpha = 2;\n}";
    let out = sort_proto(input, SortKey::Name).unwrap();
    assert_eq!(out, "message M {\n  int32 alpha = 2;\n  int32 zeta = 1;\n}");
}

#[test]
fn equal_keys_keep_their_order() {
    let input = "  string b = 1;\n  string a = 1;\n  int32 c = 0;\n";
    let out = sort_proto(input, SortKey::Number).unwrap();
    assert_eq!(out, "  int32 c = 0;\n  string a = 1;\n  string b = 1;\n");
}

#[test]
fn comments_and_options_break_field_runs() {
    let input = "  int32 b = 2;\n  // note\n  int32 a = 1;\n  option x = 3;\n";
    let out = sort_proto(input, SortKey::Number).unwrap();
    assert_eq!(out, input);
}

#[test]
fn a_shorter_block_moves_first() {
    let input = "message B {\n  int32 a = 1;\n}\nmessage A {\n}\n";
    assert_eq!(
        sort_proto(input, SortKey::Number).unwrap(),
        "message A {\n}\nmessage B {\n  int32 a = 1;\n}\n"
    );
}

#[test]
fn blocks_of_different_lengths_come_out_in_key_order() {
    let input = "message Z {\n  int32 a = 1;\n  int32 b = 2;\n}\nenum A {\n  A = 0;\n}\n";
    assert_eq!(
        sort_proto(input, SortKey::Number).unwrap(),
        "enum A {\n  A = 0;\n}\nmessage Z {\n  int32 a = 1;\n  int32 b = 2;\n}\n"
    );
}

#[test]
fn lines_between_blocks_stay_between_them() {
    let input = "// top\nmessage C {\n  int32 a = 1;\n  int32 b = 2;\n}\n\nmessage B {\n}\n// tail\n";
    assert_eq!(
        sort_proto(input, SortKey::Number).unwrap(),
        "// top\nmessage B {\n}\n\nmessage C {\n  int32 a = 1;\n  int32 b = 2;\n}\n// tail\n"
    );
}

#[test]
fn an_unterminated_block_runs_one_line() {
    let input = "message B {\nmessage A {\n";
    assert_eq!(sort_proto(input, SortKey::Number).unwrap(), "message A {\nmessage B {\n");
}

#[test]
fn text_without_blocks_or_fields_is_unchanged() {
    let input = "syntax = \"proto3\";\npackage demo;\n";
    assert_eq!(sort_proto(input, SortKey::Number).unwrap(), input);
    assert_eq!(sort_proto("", SortKey::Name).unwrap(), "");
}

#[test]
fn numbers_sort_numerically_not_textually() {
    let input = "  int32 b = 10;\n  int32 a = 9;\n  int32 c = 100;\n";
    let out = sort_proto(input, SortKey::Number).unwrap();
    assert_eq!(out, "  int32 a = 9;\n  int32 b = 10;\n  int32 c = 100;\n");
}

#[test]
fn nested_blocks_are_sorted_inside() {
    let input = "message O {\n  message Z {\n  }\n  message A {\n  }\n  int32 y = 2;\n  int32 x = 1;\n}\n";
    let out = sort_proto(input, SortKey::Number).unwrap();
    assert_eq!(out, "message O {\n  message A {\n  }\n  message Z {\n  }\n  int32 x = 1;\n  int32 y = 2;\n}\n");
}
