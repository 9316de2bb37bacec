use pbkit::diff::unified_diff;

#[test]
fn unified_diff_shows_changed_proto_lines() {
    let diff = unified_diff(
        "api.proto",
        "syntax = \"proto3\";\nmessage Foo { string b = 2; string a = 1; }\n",
        "syntax = \"proto3\";\n\nmessage Foo {\n  string a = 1;\n  string b = 2;\n}\n",
    );
    assert!(diff.contains("--- api.proto\n+++ api.proto\n@@ -1,2 +1,6 @@\n"));
    assert!(diff.contains("-message Foo { string b = 2; string a = 1; }\n"));
    assert!(diff.contains("+message Foo {\n"));
    assert!(diff.contains("+  string a = 1;\n"));
}

#[test]
fn unified_diff_keeps_small_context_window() {
    let old = "a\nb\nc\nd\ne\nf\ng\n";
    let new = "a\nb\nc\nD\ne\nf\ng\n";
    let diff = unified_diff("x.proto", old, new);
    assert!(diff.contains("@@ -1,7 +1,7 @@\n"));
    assert!(diff.contains("-d\n+D\n"));
}

#[test]
fn unified_diff_is_exact_for_one_changed_line() {
    let diff = unified_diff("f", "a\nb\n", "a\nc\n");
    assert_eq!(diff, "--- f\n+++ f\n@@ -1,2 +1,2 @@\n a\n-b\n+c\n");
}

#[test]
fn unified_diff_of_equal_texts_shows_context() {
    let diff = unified_diff("f", "x\n", "x\n");
    assert_eq!(diff, "--- f\n+++ f\n@@ -1 +1 @@\n x\n");
}
