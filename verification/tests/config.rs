use pbkit::config::{parse_config, ConfigError};
use pbkit::proto_sort::SortKey;

#[test]
fn parses_fmt_and_lint_defaults() {
    let config = parse_config(
        r#"
[fmt]
sort = true
field_sort = "name"
declaration_sort = false

[lint]
sort = false
disabled = ["field-name"]
"#,
    )
    .unwrap();
    assert_eq!(config.fmt.sort, Some(true));
    assert_eq!(config.fmt.field_sort, Some(SortKey::Name));
    assert_eq!(config.fmt.declaration_sort, Some(false));
    assert_eq!(config.lint.sort, Some(false));
}

#[test]
fn applies_cli_overrides_after_config() {
    let config = parse_config(
        r#"
[fmt]
sort = true
field_sort = "name"
"#,
    )
    .unwrap();
    let options = config.format_options(true, Some(SortKey::Number));
    assert!(!options.sort_imports);
    assert!(!options.sort_fields);
    assert!(!options.sort_declarations);
    assert_eq!(options.field_key, SortKey::Number);
}

#[test]
fn config_without_overrides_uses_file_settings() {
    let config = parse_config("[fmt]\nimport_sort = false\ndeclaration_sort = true\nfield_sort = 'name'\n").unwrap();
    let options = config.format_options(false, None);
    assert!(!options.sort_imports);
    assert!(options.sort_fields);
    assert!(options.sort_declarations);
    assert_eq!(options.field_key, SortKey::Name);
}

#[test]
fn lint_sort_setting_drives_lint_layout() {
    let config = parse_config("[lint]\nsort = false\n").unwrap();
    let options = config.lint_options(false);
    assert!(!options.format_options.sort_imports);
    assert!(!options.format_options.sort_fields);
    assert!(!options.format_options.sort_declarations);
}

#[test]
fn comments_are_ignored_outside_quotes() {
    let config = parse_config("[fmt] # formatting\nfield_sort = \"name\" # by name\n").unwrap();
    assert_eq!(config.fmt.field_sort, Some(SortKey::Name));
}

#[test]
fn config_errors_carry_line_numbers() {
    assert_eq!(parse_config("[fmt\n").unwrap_err(), ConfigError::UnterminatedSection(1));
    assert_eq!(parse_config("\n[fmt]\nsort\n").unwrap_err(), ConfigError::ExpectedKeyValue(3));
    assert_eq!(parse_config("[fmt]\nsort = yes\n").unwrap_err(), ConfigError::ExpectedBool(2));
    assert_eq!(parse_config("[fmt]\nfield_sort = \"size\"\n").unwrap_err(), ConfigError::ExpectedSortKey(2));
}

#[test]
fn unknown_keys_and_sections_are_ignored() {
    let config = parse_config("[other]\nsort = maybe\n[fmt]\nunknown = 1\n").unwrap();
    assert_eq!(config.fmt.sort, None);
    assert_eq!(config.lint.sort, None);
}

#[test]
fn empty_config_sorts_everything() {
    let config = parse_config("").unwrap();
    let options = config.format_options(false, None);
    assert!(options.sort_imports);
    assert!(options.sort_fields);
    assert!(options.sort_declarations);
    assert_eq!(options.field_key, SortKey::Number);
    let lint = config.lint_options(false);
    assert!(lint.format_options.sort_declarations);
}
