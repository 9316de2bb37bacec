use pbkit::json::{JsonNumber, JsonValue};
use pbkit::output::{render_value, Rendered, ValueFormat};
use pbkit::wire::{decode_message, raw_bytes_from_json, to_json, RawField, RawValue, WireError};

fn get<'a>(value: &'a JsonValue, key: &str) -> &'a JsonValue {
    match value {
        JsonValue::Object(entries) => &entries.iter().find(|(k, _)| k == key).unwrap().1,
        _ => panic!("not an object"),
    }
}

fn at(value: &JsonValue, index: usize) -> &JsonValue {
    match value {
        JsonValue::Array(items) => &items[index],
        _ => panic!("not an array"),
    }
}

#[test]
fn decodes_unknown_wire_message() {
    let decoded = decode_message(&vec![0x08, 0x96, 0x01, 0x12, 0x03, b'f', b'o', b'o']).unwrap();
    let json = to_json(&decoded);
    assert_eq!(get(at(get(&json, "1"), 0), "value"), &JsonValue::Number(JsonNumber::Unsigned(150)));
    assert_eq!(get(at(get(&json, "2"), 0), "utf8"), &JsonValue::Text("foo".into()));
}

#[test]
fn decodes_every_wire_type() {
    let input = vec![
        0x08, 0x01, // 1: varint 1
        0x11, 1, 0, 0, 0, 0, 0, 0, 0, // 2: fixed64 1
        0x1a, 0x00, // 3: empty bytes
        0x25, 2, 0, 0, 0, // 4: fixed32 2
    ];
    let fields = decode_message(&input).unwrap();
    assert_eq!(fields.len(), 4);
    assert_eq!(fields[0].value, RawValue::Varint(1));
    assert_eq!(fields[1].value, RawValue::Fixed64(1));
    assert_eq!(fields[2].value, RawValue::LengthDelimited(vec![]));
    assert_eq!(fields[3].value, RawValue::Fixed32(2));
    assert_eq!(fields[3].number, 4);
}

#[test]
fn varints_carry_their_zigzag_reading() {
    let json = to_json(&decode_message(&vec![0x08, 0x03]).unwrap());
    let field = at(get(&json, "1"), 0);
    assert_eq!(get(field, "zigzag_i64"), &JsonValue::Number(JsonNumber::Signed(-2)));
    assert_eq!(get(field, "wire"), &JsonValue::Text("varint".into()));
}

#[test]
fn repeated_fields_group_under_one_key() {
    let json = to_json(&decode_message(&vec![0x08, 0x01, 0x08, 0x02]).unwrap());
    match get(&json, "1") {
        JsonValue::Array(items) => assert_eq!(items.len(), 2),
        _ => panic!("expected an array"),
    }
}

#[test]
fn wire_errors_are_reported() {
    assert_eq!(decode_message(&vec![0x08]), Err(WireError::TruncatedVarint));
    assert_eq!(decode_message(&vec![0x08, 0xff, 0xff, 0xff, 0xff, 0xff, 0xff, 0xff, 0xff, 0xff, 0xff, 0x01]), Err(WireError::VarintTooLong));
    assert_eq!(decode_message(&vec![0x00, 0x01]), Err(WireError::ZeroFieldNumber));
    assert_eq!(decode_message(&vec![0x09, 0x01]), Err(WireError::TruncatedFixed64(1)));
    assert_eq!(decode_message(&vec![0x12, 0x05, 0x01]), Err(WireError::TruncatedLengthDelimited(2)));
}

#[test]
fn length_delimited_json_gives_its_bytes_back() {
    let json = to_json(&decode_message(&vec![0x12, 0x03, b'f', b'o', b'o']).unwrap());
    let field = at(get(&json, "2"), 0);
    assert_eq!(raw_bytes_from_json(field), Some(b"foo".to_vec()));
    assert_eq!(get(field, "bytes_base64"), &JsonValue::Text("Zm9v".into()));
    let list = get(&json, "2");
    assert_eq!(raw_bytes_from_json(list), Some(b"foo".to_vec()));
    assert_eq!(raw_bytes_from_json(&JsonValue::Null), None);
}

#[test]
fn selected_bytes_render_as_raw_hex_and_base64() {
    let json = to_json(&decode_message(&vec![0x12, 0x03, b'f', b'o', b'o']).unwrap());
    let list = get(&json, "2");
    assert_eq!(render_value(list, ValueFormat::Raw), Some(Rendered::Bytes(b"foo".to_vec())));
    assert_eq!(render_value(list, ValueFormat::Hex), Some(Rendered::Line("666f6f".into())));
    assert_eq!(render_value(list, ValueFormat::Base64), Some(Rendered::Line("Zm9v".into())));
    let field = at(list, 0);
    assert_eq!(render_value(field, ValueFormat::Base64), Some(Rendered::Line("Zm9v".into())));
    assert_eq!(render_value(&JsonValue::Bool(true), ValueFormat::Hex), None);
}

#[test]
fn raw_bytes_of_repeated_field_are_concatenated() {
    let json = to_json(&decode_message(&vec![0x12, 0x02, b'a', b'b', 0x12, 0x01, b'c']).unwrap());
    assert_eq!(raw_bytes_from_json(get(&json, "2")), Some(b"abc".to_vec()));
}

#[test]
fn raw_bytes_of_scalars_are_absent() {
    let json = to_json(&decode_message(&vec![0x08, 0x96, 0x01, 0x15, 1, 0, 0, 0]).unwrap());
    assert_eq!(raw_bytes_from_json(at(get(&json, "1"), 0)), None);
    assert_eq!(raw_bytes_from_json(at(get(&json, "2"), 0)), None);
}

#[test]
fn non_canonical_base64_is_refused() {
    let value = JsonValue::Object(vec![("bytes_base64".to_string(), JsonValue::Text("Zm9=".into()))]);
    assert_eq!(raw_bytes_from_json(&value), None);
    let value = JsonValue::Object(vec![("bytes_base64".to_string(), JsonValue::Text("Zm9v".into()))]);
    assert_eq!(raw_bytes_from_json(&value), Some(b"foo".to_vec()));
}

#[test]
fn concatenated_messages_decode_to_concatenated_fields() {
    let a = vec![0x08, 0x96, 0x01];
    let b = vec![0x12, 0x03, b'f', b'o', b'o', 0x15, 1, 0, 0, 0];
    let mut ab = a.clone();
    ab.extend_from_slice(&b);
    let mut expected = decode_message(&a).unwrap();
    expected.extend(decode_message(&b).unwrap());
    assert_eq!(decode_message(&ab).unwrap(), expected);
    assert_eq!(decode_message(&vec![]).unwrap(), vec![]);
}

#[test]
fn encoded_fields_decode_back() {
    let bytes = vec![
        0x08, 0xAC, 0x02, // 1: varint 300
        0x12, 0x02, b'h', b'i', // 2: bytes "hi"
        0x1D, 7, 0, 0, 0, // 3: fixed32 7
        0x21, 9, 0, 0, 0, 0, 0, 0, 0, // 4: fixed64 9
    ];
    assert_eq!(
        decode_message(&bytes).unwrap(),
        vec![
            RawField { number: 1, value: RawValue::Varint(300) },
            RawField { number: 2, value: RawValue::LengthDelimited(b"hi".to_vec()) },
            RawField { number: 3, value: RawValue::Fixed32(7) },
            RawField { number: 4, value: RawValue::Fixed64(9) },
        ]
    );
}

#[test]
fn raw_bytes_of_mixed_occurrences_are_absent() {
    let json = to_json(&vec![
        RawField { number: 2, value: RawValue::LengthDelimited(b"ab".to_vec()) },
        RawField { number: 2, value: RawValue::Varint(5) },
    ]);
    let list = get(&json, "2");
    assert_eq!(raw_bytes_from_json(at(list, 0)), Some(b"ab".to_vec()));
    assert_eq!(raw_bytes_from_json(at(list, 1)), None);
    assert_eq!(raw_bytes_from_json(list), None);
}
