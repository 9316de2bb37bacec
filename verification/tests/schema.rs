use pbkit::schema::{
    enum_candidates, field_candidates, message_candidates, proto_file_matches, query_path_candidates,
    resolve_message_name, sorted_candidates, unique_by_value, Candidate, FieldInfo, FieldKind,
    MessageInfo, Schema, SchemaError,
};

fn field(name: &str, kind: FieldKind, is_list: bool, is_map: bool) -> FieldInfo {
    FieldInfo {
        name: name.to_string(),
        json_name: name.to_string(),
        kind,
        is_list,
        is_map,
    }
}

/// `demo.Profile { string name = 1; }`, `demo.User { Profile profile = 1;
/// repeated Profile profiles = 2; map<string, Profile> labels = 3; }`.
fn test_pool() -> Schema {
    Schema {
        messages: vec![
            MessageInfo {
                full_name: "demo.Profile".into(),
                is_map_entry: false,
                fields: vec![field("name", FieldKind::String, false, false)],
            },
            MessageInfo {
                full_name: "demo.User".into(),
                is_map_entry: false,
                fields: vec![
                    field("profile", FieldKind::Message(0), false, false),
                    field("profiles", FieldKind::Message(0), true, false),
                    field("labels", FieldKind::Message(2), false, true),
                ],
            },
            MessageInfo {
                full_name: "demo.User.LabelsEntry".into(),
                is_map_entry: true,
                fields: vec![
                    field("key", FieldKind::String, false, false),
                    field("value", FieldKind::Message(0), false, false),
                ],
            },
        ],
        enums: vec!["demo.Kind".into()],
    }
}

fn cand(value: &str, detail: &str) -> Candidate {
    Candidate { value: value.into(), detail: detail.into() }
}

#[test]
fn completes_nested_query_paths() {
    let pool = test_pool();
    let candidates = query_path_candidates(&pool, "demo.User", "$.profile.n").unwrap();
    assert_eq!(candidates[0].value, "$.profile.name");
}

#[test]
fn completes_repeated_query_paths() {
    let pool = test_pool();
    let candidates = query_path_candidates(&pool, "demo.User", "$.profiles[").unwrap();
    let values = candidates
        .iter()
        .map(|candidate| candidate.value.as_str())
        .collect::<Vec<_>>();
    assert!(values.contains(&"$.profiles[*]"));
    assert!(values.contains(&"$.profiles[0]"));

    let nested = query_path_candidates(&pool, "demo.User", "$.profiles[*].n").unwrap();
    assert_eq!(nested[0].value, "$.profiles[*].name");
}

#[test]
fn completes_map_query_paths() {
    let pool = test_pool();
    let candidates = query_path_candidates(&pool, "demo.User", "$.labels[").unwrap();
    assert!(candidates
        .iter()
        .any(|candidate| candidate.value == "$.labels[\"<key>\"]"));

    let nested = query_path_candidates(&pool, "demo.User", "$.labels[\"foo\"].n").unwrap();
    assert_eq!(nested[0].value, "$.labels[\"foo\"].name");
}

#[test]
fn query_candidates_at_the_root_are_sorted_with_details() {
    let pool = test_pool();
    let candidates = query_path_candidates(&pool, "demo.User", "").unwrap();
    assert_eq!(
        candidates,
        vec![
            cand("$.labels", "map<string, message>"),
            cand("$.labels[\"<key>\"]", "map<string, message>"),
            cand("$.profile", "message"),
            cand("$.profiles", "repeated message"),
            cand("$.profiles[*]", "repeated message"),
            cand("$.profiles[0]", "repeated message"),
        ]
    );
}

#[test]
fn query_path_errors_name_the_field() {
    let pool = test_pool();
    assert_eq!(
        query_path_candidates(&pool, "demo.User", "$.nope.x"),
        Err(SchemaError::FieldNotFound("nope".into(), "$.nope".into()))
    );
    assert_eq!(
        query_path_candidates(&pool, "demo.Profile", "$.name.x"),
        Err(SchemaError::NotAMessage("name".into(), "string".into()))
    );
    assert_eq!(
        query_path_candidates(&pool, "demo.Missing", "$."),
        Err(SchemaError::MessageNotFound("demo.Missing".into()))
    );
}

#[test]
fn message_and_enum_names_match_by_last_segment() {
    let pool = test_pool();
    let messages = message_candidates(&pool, "Use");
    assert_eq!(messages, vec![cand("demo.User", "message")]);
    let all = message_candidates(&pool, "demo.");
    assert_eq!(all.len(), 3);
    assert_eq!(enum_candidates(&pool, "K"), vec![cand("demo.Kind", "enum")]);
    assert!(enum_candidates(&pool, "x").is_empty());
}

#[test]
fn field_candidates_use_plain_names() {
    let pool = test_pool();
    let fields = field_candidates(&pool, "demo.User", "pro").unwrap();
    assert_eq!(fields, vec![cand("profile", "message"), cand("profiles", "repeated message")]);
    assert_eq!(
        field_candidates(&pool, "demo.Nope", ""),
        Err(SchemaError::MessageNotFound("demo.Nope".into()))
    );
}

#[test]
fn message_name_is_resolved_when_unique() {
    let pool = test_pool();
    assert_eq!(resolve_message_name(&pool, Some("x.Y".into()), "query"), Ok("x.Y".into()));
    assert_eq!(
        resolve_message_name(&pool, None, "query"),
        Err(SchemaError::SeveralMessages("query".into()))
    );
    let single = Schema {
        messages: vec![MessageInfo { full_name: "a.B".into(), is_map_entry: false, fields: vec![] }],
        enums: vec![],
    };
    assert_eq!(resolve_message_name(&single, None, "query"), Ok("a.B".into()));
    let empty = Schema { messages: vec![], enums: vec![] };
    assert_eq!(
        resolve_message_name(&empty, None, "query"),
        Err(SchemaError::NoMessages("query".into()))
    );
}

#[test]
fn candidates_are_sorted_and_deduplicated() {
    let sorted = sorted_candidates(vec![cand("b", "x"), cand("a", "y"), cand("b", "x"), cand("a", "a")]);
    assert_eq!(sorted, vec![cand("a", "a"), cand("a", "y"), cand("b", "x")]);
}

#[test]
fn proto_files_are_unique_by_path() {
    let unique = unique_by_value(vec![cand("b.proto", "1"), cand("a.proto", "2"), cand("b.proto", "3")]);
    assert_eq!(unique, vec![cand("a.proto", "2"), cand("b.proto", "1")]);
}

#[test]
fn proto_files_match_by_path_relative_path_or_name() {
    assert!(proto_file_matches("./api/v1/user.proto", Some("api/v1/user.proto"), Some("user.proto"), "api/"));
    assert!(proto_file_matches("./api/v1/user.proto", None, Some("user.proto"), "us"));
    assert!(proto_file_matches("./api/v1/user.proto", None, None, "./a"));
    assert!(!proto_file_matches("./api/v1/user.proto", Some("api/v1/user.proto"), Some("user.proto"), "v1"));
}

#[test]
fn candidate_lists_do_not_depend_on_input_order() {
    let a = sorted_candidates(vec![cand("x", "1"), cand("b", "2"), cand("x", "1")]);
    let b = sorted_candidates(vec![cand("b", "2"), cand("x", "1")]);
    assert_eq!(a, b);
}
