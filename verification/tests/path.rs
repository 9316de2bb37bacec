use pbkit::json::{JsonNumber, JsonValue};
use pbkit::path::{parse_path, select, select_many, PathError, Segment};

#[test]
fn parses_dot_and_bracket_paths() {
    assert_eq!(
        parse_path("$.payload[0]['data']").unwrap(),
        vec![
            Segment::Key("payload".into()),
            Segment::Index(0),
            Segment::Key("data".into())
        ]
    );
}

#[test]
fn parses_wildcards() {
    assert_eq!(
        parse_path("$.items[*].id").unwrap(),
        vec![
            Segment::Key("items".into()),
            Segment::Wildcard,
            Segment::Key("id".into())
        ]
    );
    assert_eq!(parse_path("$.*").unwrap(), vec![Segment::Wildcard]);
}

fn number(n: u64) -> JsonValue {
    JsonValue::Number(JsonNumber::Unsigned(n))
}

fn object(entries: Vec<(&str, JsonValue)>) -> JsonValue {
    JsonValue::Object(entries.into_iter().map(|(k, v)| (k.to_string(), v)).collect())
}

fn sample() -> JsonValue {
    object(vec![(
        "items",
        JsonValue::Array(vec![
            object(vec![
                ("id", number(1)),
                ("labels", object(vec![("name", JsonValue::Text("a".into()))])),
            ]),
            object(vec![
                ("id", number(2)),
                ("labels", object(vec![("name", JsonValue::Text("b".into()))])),
            ]),
        ]),
    )])
}

#[test]
fn selects_many_with_wildcards_and_array_flattening() {
    let value = sample();
    let wildcard_path = parse_path("$.items[*].id").unwrap();
    let flattened_path = parse_path("$.items.id").unwrap();
    let wildcard = select_many(&value, &wildcard_path);
    let flattened = select_many(&value, &flattened_path);
    assert_eq!(wildcard.len(), 2);
    assert_eq!(wildcard[0], &number(1));
    assert_eq!(wildcard[1], &number(2));
    assert_eq!(flattened, wildcard);
}

#[test]
fn select_takes_the_first_match() {
    let value = sample();
    let path = parse_path("$.items[1].labels['name']").unwrap();
    assert_eq!(select(&value, &path), Some(&JsonValue::Text("b".into())));
    let missing = parse_path("$.items[5]").unwrap();
    assert_eq!(select(&value, &missing), None);
    assert!(select_many(&value, &missing).is_empty());
}

#[test]
fn object_wildcard_selects_every_value() {
    let value = object(vec![("a", number(1)), ("b", number(2))]);
    let all = select_many(&value, &parse_path("$.*").unwrap());
    assert_eq!(all, vec![&number(1), &number(2)]);
}

#[test]
fn path_errors_are_reported() {
    assert_eq!(parse_path("$."), Err(PathError::EmptyKey));
    assert_eq!(parse_path("$[*"), Err(PathError::UnterminatedWildcard));
    assert_eq!(parse_path("$['a"), Err(PathError::UnterminatedKey));
    assert_eq!(parse_path("$[1"), Err(PathError::UnterminatedIndex));
    assert_eq!(parse_path("$[x]"), Err(PathError::InvalidIndex("x".into())));
    assert_eq!(parse_path("$?"), Err(PathError::UnexpectedToken('?')));
}

#[test]
fn empty_path_selects_the_root() {
    let value = number(7);
    assert_eq!(parse_path("  $  ").unwrap(), vec![]);
    assert_eq!(select_many(&value, &vec![]), vec![&number(7)]);
}

#[test]
fn leading_dollar_changes_nothing() {
    for s in [".a[0]", "['x'].*", "[*][2]", ".items[*].id"] {
        assert_eq!(parse_path(&format!("${s}")), parse_path(s));
    }
    assert_eq!(parse_path("").unwrap(), vec![]);
    assert_eq!(parse_path("$").unwrap(), vec![]);
}

#[test]
fn bracketed_path_reads_back() {
    let segs = vec![Segment::Key("a.b".to_string()), Segment::Index(12), Segment::Wildcard];
    assert_eq!(parse_path("$['a.b'][12][*]").unwrap(), segs);
}

#[test]
fn leading_dollar_changes_nothing_with_trailing_space() {
    assert_eq!(parse_path("$.a[0]  "), parse_path(".a[0]  "));
    assert_eq!(parse_path("$  ").unwrap(), vec![]);
}
