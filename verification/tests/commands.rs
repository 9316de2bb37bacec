use pbkit::commands::{check_fmt_flags, fmt_check_failed, fmt_file_outcome, run_selector, FmtFlagError, QueryError};
use pbkit::json::{JsonNumber, JsonValue};
use pbkit::path::PathError;

#[test]
fn fmt_flags_are_checked() {
    assert_eq!(check_fmt_flags(true, true, false, true), Err(FmtFlagError::DiffWithWrite));
    assert_eq!(check_fmt_flags(false, false, true, false), Err(FmtFlagError::NeedsFiles));
    assert_eq!(check_fmt_flags(false, false, false, false), Ok(()));
    assert_eq!(check_fmt_flags(true, false, true, true), Ok(()));
}

#[test]
fn fmt_outcome_follows_the_flags() {
    let same = fmt_file_outcome("a.proto", "x\n", "x\n", false, false, false);
    assert!(!same.changed && same.diff.is_none() && same.print && !same.write_back);
    let changed = fmt_file_outcome("a.proto", "a\nb\n", "a\nc\n", false, true, true);
    assert!(changed.changed && !changed.print);
    assert_eq!(changed.diff.unwrap(), "--- a.proto\n+++ a.proto\n@@ -1,2 +1,2 @@\n a\n-b\n+c\n");
    let written = fmt_file_outcome("a.proto", "a\n", "b\n", true, false, false);
    assert!(written.write_back && !written.print && written.diff.is_none());
    assert!(fmt_check_failed(true, true));
    assert!(!fmt_check_failed(true, false));
    assert!(!fmt_check_failed(false, true));
}

fn number(n: u64) -> JsonValue {
    JsonValue::Number(JsonNumber::Unsigned(n))
}

#[test]
fn query_prints_one_match_or_an_array() {
    let root = JsonValue::Object(vec![("a".into(), JsonValue::Array(vec![number(1), number(2)]))]);
    assert_eq!(run_selector(&root, "$.a[1]"), Ok(number(2)));
    assert_eq!(run_selector(&root, "$.a[*]"), Ok(JsonValue::Array(vec![number(1), number(2)])));
    assert_eq!(run_selector(&root, "$.b"), Err(QueryError::NoMatch));
    assert_eq!(run_selector(&root, "$."), Err(QueryError::Path(PathError::EmptyKey)));
}

#[test]
fn sort_write_needs_files() {
    assert!(pbkit::commands::sort_write_refused(false, true));
    assert!(!pbkit::commands::sort_write_refused(true, true));
    assert!(!pbkit::commands::sort_write_refused(false, false));
}
