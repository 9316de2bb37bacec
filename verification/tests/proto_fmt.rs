use pbkit::proto_fmt::{format_proto, FormatError, FormatOptions};
use pbkit::proto_sort::SortKey;

#[test]
fn formats_by_sorting_imports_and_fields() {
    let input = r#"syntax = "proto3";
import "z.proto";
import "a.proto";
message Z { string b = 2; string a = 1; }
message A {}
"#;
    let output = format_proto(input, FormatOptions::default()).unwrap();
    assert!(
        output.find("import \"a.proto\"").unwrap() < output.find("import \"z.proto\"").unwrap()
    );
    assert!(output.find("message Z").unwrap() < output.find("message A").unwrap());
    assert!(output.contains("message Z {\n  string a = 1;\n  string b = 2;\n}"));
}

#[test]
fn can_sort_declarations_when_requested() {
    let input = r#"syntax = "proto3";
message Z {}
message A {}
"#;
    let output = format_proto(
        input,
        FormatOptions {
            sort_declarations: true,
            ..FormatOptions::default()
        },
    )
    .unwrap();
    assert!(output.find("message A").unwrap() < output.find("message Z").unwrap());
}

#[test]
fn keeps_map_type_separated_from_field_name() {
    let input = r#"syntax = "proto3";
message Labels { map<string, string> labels=1; }
"#;
    let output = format_proto(input, FormatOptions::default()).unwrap();
    assert!(output.contains("map<string, string> labels = 1;"));
}

#[test]
fn formats_nested_blocks_from_cst() {
    let input = r#"syntax = "proto3";
message Outer { message Z {} message A {} enum E { TWO = 2; ONE = 1; } string b=2; string a=1; }
"#;
    let output = format_proto(input, FormatOptions::default()).unwrap();
    assert!(output.contains("message A {}") || output.contains("message A {\n}"));
    assert!(output.find("message Z").unwrap() < output.find("message A").unwrap());
    assert!(output.find("string a = 1").unwrap() < output.find("string b = 2").unwrap());
}

#[test]
fn rejects_invalid_input() {
    assert!(format_proto("message Foo { string name = ; }", FormatOptions::default()).is_err());
}

#[test]
fn invalid_input_is_reported_as_such() {
    assert_eq!(
        format_proto("message Foo { string name = ; }", FormatOptions::default()),
        Err(FormatError::InvalidSource)
    );
    assert_eq!(
        FormatError::InvalidSource.describe(),
        "cannot format protobuf source with syntax errors"
    );
}

#[test]
fn formatted_layout_is_exact() {
    let input = "syntax=\"proto3\";package demo;\nimport \"b.proto\";import \"a.proto\";\n// about Foo\nmessage Foo { int32 b=2; int32 a = 1 ; }\n";
    let output = format_proto(input, FormatOptions::default()).unwrap();
    assert_eq!(
        output,
        "syntax = \"proto3\";\npackage demo;\n\nimport \"a.proto\";\nimport \"b.proto\";\n\n// about Foo\nmessage Foo {\n  int32 a = 1;\n  int32 b = 2;\n}\n"
    );
}

#[test]
fn formatting_twice_changes_nothing_more() {
    let input = "syntax = \"proto3\";\nmessage B { oneof kind { string y = 2; string x = 1; } }\nenum E { B = 1; A = 0; }\n";
    let once = format_proto(input, FormatOptions::default()).unwrap();
    let twice = format_proto(&once, FormatOptions::default()).unwrap();
    assert_eq!(once, twice);
}

#[test]
fn without_sorting_the_order_is_kept() {
    let options = FormatOptions {
        sort_imports: false,
        sort_fields: false,
        sort_declarations: false,
        field_key: SortKey::Number,
    };
    let input = "syntax = \"proto3\";\nmessage Z { int32 b = 2; int32 a = 1; }\nmessage A {}\n";
    let output = format_proto(input, options).unwrap();
    assert!(output.find("int32 b = 2").unwrap() < output.find("int32 a = 1").unwrap());
    assert!(output.find("message Z").unwrap() < output.find("message A").unwrap());
}

#[test]
fn fields_can_be_ordered_by_name() {
    let options = FormatOptions { field_key: SortKey::Name, ..FormatOptions::default() };
    let output = format_proto("syntax = \"proto3\";\nmessage M { int32 b = 1; int32 a = 2; }\n", options).unwrap();
    assert!(output.contains("message M {\n  int32 a = 2;\n  int32 b = 1;\n}"));
}

#[test]
fn services_list_their_rpcs() {
    let input = "syntax = \"proto3\";\nservice Api { rpc Get ( Req ) returns ( Resp ); }\n";
    let output = format_proto(input, FormatOptions::default()).unwrap();
    assert!(output.contains("service Api {\n  rpc Get(Req) returns(Resp);\n}"), "{output}");
}
