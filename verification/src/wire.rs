//! Decoding of protobuf wire data without a schema.
use vstd::bytes::{
    lemma_auto_spec_u32_to_from_le_bytes, lemma_auto_spec_u64_to_from_le_bytes, spec_u32_from_le_bytes,
    spec_u32_to_le_bytes, spec_u64_from_le_bytes, spec_u64_to_le_bytes, u32_from_le_bytes,
    u64_from_le_bytes,
};
use vstd::arithmetic::power2::{
    lemma2_to64, lemma2_to64_rest, lemma_pow2_adds, lemma_pow2_pos, lemma_pow2_strictly_increases, pow2,
};
use vstd::bits::lemma_u64_shl_is_mul;
use vstd::prelude::*;
use vstd::slice::{slice_subrange, slice_to_vec};
use vstd::utf8::{decode_utf8, valid_utf8};

use crate::encoding::{base64_decode, base64_encode, base64_encoded, base64_decoded, utf8_text};
use crate::json::{entry_index, json_entries, json_list, json_of, object_get, Json, JsonNumber, JsonValue};
use crate::text::{
    compare, decimal, lemma_lex_irreflexive, lemma_lex_total, lemma_lex_transitive, lex_lt,
    push_decimal, string_of, Order,
};

verus! {

/// One raw wire value.
#[derive(Debug, Clone, PartialEq)]
pub enum RawValue {
    Varint(u64),
    Fixed64(u64),
    LengthDelimited(Vec<u8>),
    Fixed32(u32),
}

/// One field occurrence: its number and raw value.
#[derive(Debug, Clone, PartialEq)]
pub struct RawField {
    pub number: u32,
    pub value: RawValue,
}

/// The meaning of a [`RawValue`].
pub enum WireValue {
    Varint(u64),
    Fixed64(u64),
    Bytes(Seq<u8>),
    Fixed32(u32),
}

/// The meaning of a [`RawField`].
pub struct WireField {
    pub number: u32,
    pub value: WireValue,
}

impl View for RawValue {
    type V = WireValue;

    open spec fn view(&self) -> WireValue {
        match self {
            RawValue::Varint(n) => WireValue::Varint(*n),
            RawValue::Fixed64(n) => WireValue::Fixed64(*n),
            RawValue::LengthDelimited(b) => WireValue::Bytes(b@),
            RawValue::Fixed32(n) => WireValue::Fixed32(*n),
        }
    }
}

impl View for RawField {
    type V = WireField;

    open spec fn view(&self) -> WireField {
        WireField { number: self.number, value: self.value@ }
    }
}

pub open spec fn fields_of(fields: Seq<RawField>) -> Seq<WireField> {
    fields.map_values(|f: RawField| f@)
}

/// Why wire data could not be decoded.
#[derive(Debug, Clone, Copy, PartialEq, Eq)]
pub enum WireError {
    /// The input ends inside a varint.
    TruncatedVarint,
    /// A varint runs past ten bytes.
    VarintTooLong,
    /// A key names field number 0.
    ZeroFieldNumber,
    /// Fewer than 8 bytes remain for a fixed64 field (its number).
    TruncatedFixed64(u32),
    /// Fewer bytes remain than a length-delimited field declares (its number).
    TruncatedLengthDelimited(u32),
    /// Fewer than 4 bytes remain for a fixed32 field (its number).
    TruncatedFixed32(u32),
    /// Start-group and end-group wire types.
    GroupsUnsupported,
    /// A wire type other than 0 to 5.
    InvalidWireType(u8),
}

// ---------------------------------------------------------------------------
// Varints
// ---------------------------------------------------------------------------
/// Reading the varint at `i` from its `k`-th byte on, with the low bits `acc` so far:
/// each byte contributes its low seven bits at bit `7 * k` of a `u64`; a byte
/// without its high bit ends the varint; ten bytes at most.
pub open spec fn varint_from(s: Seq<u8>, i: int, k: int, acc: u64) -> Result<(u64, int), WireError>
    decreases 10 - k,
{
    if k >= 10 || k < 0 {
        Err(WireError::VarintTooLong)
    } else if i + k >= s.len() || i + k < 0 {
        Err(WireError::TruncatedVarint)
    } else {
        let byte = s[i + k];
        let acc2 = acc | (((byte & 0x7f) as u64) << ((7 * k) as u64));
        if byte & 0x80 == 0 {
            Ok((acc2, i + k + 1))
        } else {
            varint_from(s, i, k + 1, acc2)
        }
    }
}

/// The varint at `i`: its value and the index just after it.
pub open spec fn varint_at(s: Seq<u8>, i: int) -> Result<(u64, int), WireError> {
    varint_from(s, i, 0, 0)
}

pub proof fn lemma_varint_from_bounds(s: Seq<u8>, i: int, k: int, acc: u64)
    requires
        0 <= i,
        0 <= k,
    ensures
        varint_from(s, i, k, acc) matches Ok((v, j)) ==> i + k < j <= s.len(),
    decreases 10 - k,
{
    if k < 10 && i + k < s.len() {
        let byte = s[i + k];
        let acc2 = acc | (((byte & 0x7f) as u64) << ((7 * k) as u64));
        lemma_varint_from_bounds(s, i, k + 1, acc2);
    }
}

pub proof fn lemma_varint_bounds(s: Seq<u8>, i: int)
    requires
        0 <= i,
    ensures
        varint_at(s, i) matches Ok((v, j)) ==> i < j <= s.len(),
{
    lemma_varint_from_bounds(s, i, 0, 0);
}

/// Reads the varint that starts at `i`.
pub fn read_varint(input: &Vec<u8>, i: usize) -> (r: Result<(u64, usize), WireError>)
    ensures
        match r {
            Ok((v, j)) => varint_at(input@, i as int) == Ok::<(u64, int), WireError>(
                (v, j as int),
            ),
            Err(e) => varint_at(input@, i as int) == Err::<(u64, int), WireError>(e),
        },
{
    let mut value: u64 = 0;
    let mut k: usize = 0;
    while k < 10
        invariant
            k <= 10,
            varint_at(input@, i as int) == varint_from(input@, i as int, k as int, value),
        decreases 10 - k,
    {
        if i >= input.len() || input.len() - i <= k {
            return Err(WireError::TruncatedVarint);
        }
        let byte = input[i + k];
        value = value | (((byte & 0x7f) as u64) << ((7 * k) as u64));
        if byte & 0x80 == 0 {
            return Ok((value, i + k + 1));
        }
        k += 1;
    }
    Err(WireError::VarintTooLong)
}

// ---------------------------------------------------------------------------
// Messages
// ---------------------------------------------------------------------------
/// The value of a field of number `number` and wire type `wire_type` whose data
/// starts at `j`, and the index just after it.
pub open spec fn field_value_at(s: Seq<u8>, j: int, number: u32, wire_type: u8) -> Result<
    (WireValue, int),
    WireError,
> {
    if wire_type == 0 {
        match varint_at(s, j) {
            Ok((v, k)) => Ok((WireValue::Varint(v), k)),
            Err(e) => Err(e),
        }
    } else if wire_type == 1 {
        if s.len() - j < 8 {
            Err(WireError::TruncatedFixed64(number))
        } else {
            Ok((WireValue::Fixed64(spec_u64_from_le_bytes(s.subrange(j, j + 8))), j + 8))
        }
    } else if wire_type == 2 {
        match varint_at(s, j) {
            Ok((len, k)) => {
                let n = len as usize;
                if s.len() - k < n {
                    Err(WireError::TruncatedLengthDelimited(number))
                } else {
                    Ok((WireValue::Bytes(s.subrange(k, k + n)), k + n))
                }
            },
            Err(e) => Err(e),
        }
    } else if wire_type == 5 {
        if s.len() - j < 4 {
            Err(WireError::TruncatedFixed32(number))
        } else {
            Ok((WireValue::Fixed32(spec_u32_from_le_bytes(s.subrange(j, j + 4))), j + 4))
        }
    } else if wire_type == 3 || wire_type == 4 {
        Err(WireError::GroupsUnsupported)
    } else {
        Err(WireError::InvalidWireType(wire_type))
    }
}

pub proof fn lemma_field_value_bounds(s: Seq<u8>, j: int, number: u32, wire_type: u8)
    requires
        0 <= j <= s.len(),
    ensures
        field_value_at(s, j, number, wire_type) matches Ok((v, k)) ==> j < k <= s.len(),
{
    lemma_varint_bounds(s, j);
}

pub open spec fn then_fields(f: WireField, rest: Result<Seq<WireField>, WireError>) -> Result<
    Seq<WireField>,
    WireError,
> {
    match rest {
        Ok(fs) => Ok(seq![f] + fs),
        Err(e) => Err(e),
    }
}

/// The fields encoded in `s[i..]`: a varint key (field number `key >> 3`, wire type
/// `key & 7`) followed by the value, repeated until the input ends.
pub open spec fn fields_from(s: Seq<u8>, i: int) -> Result<Seq<WireField>, WireError>
    decreases s.len() - i,
{
    if i < 0 || i >= s.len() {
        Ok(seq![])
    } else {
        match varint_at(s, i) {
            Err(e) => Err(e),
            Ok((key, j)) => {
                let number = (key >> 3) as u32;
                let wire_type = (key & 7) as u8;
                if number == 0 {
                    Err(WireError::ZeroFieldNumber)
                } else {
                    proof {
                        lemma_varint_bounds(s, i);
                        lemma_field_value_bounds(s, j, number, wire_type);
                    }
                    match field_value_at(s, j, number, wire_type) {
                        Err(e) => Err(e),
                        Ok((v, k)) => then_fields(
                            WireField { number, value: v },
                            fields_from(s, k),
                        ),
                    }
                }
            },
        }
    }
}

/// The fields encoded in `s`.
pub open spec fn decoded(s: Seq<u8>) -> Result<Seq<WireField>, WireError> {
    fields_from(s, 0)
}

fn copy_bytes(input: &Vec<u8>, a: usize, b: usize) -> (r: Vec<u8>)
    requires
        a <= b <= input.len(),
    ensures
        r@ == input@.subrange(a as int, b as int),
{
    slice_to_vec(slice_subrange(input.as_slice(), a, b))
}

proof fn lemma_then_fields(a: Seq<WireField>, f: WireField, r: Result<Seq<WireField>, WireError>)
    ensures
        match then_fields(f, r) {
            Ok(fs) => Ok::<Seq<WireField>, WireError>(a + fs),
            Err(e) => Err::<Seq<WireField>, WireError>(e),
        } == match r {
            Ok(fs) => Ok::<Seq<WireField>, WireError>(a.push(f) + fs),
            Err(e) => Err::<Seq<WireField>, WireError>(e),
        },
{
    if let Ok(fs) = r {
        assert(a + (seq![f] + fs) =~= a.push(f) + fs);
    }
}

/// Decodes every field of a protobuf message without a schema.
pub fn decode_message(input: &Vec<u8>) -> (r: Result<Vec<RawField>, WireError>)
    ensures
        match r {
            Ok(fields) => decoded(input@) == Ok::<Seq<WireField>, WireError>(fields_of(fields@)),
            Err(e) => decoded(input@) == Err::<Seq<WireField>, WireError>(e),
        },
{
    let mut fields: Vec<RawField> = Vec::new();
    let mut i: usize = 0;
    while i < input.len()
        invariant
            i <= input.len(),
            decoded(input@) == match fields_from(input@, i as int) {
                Ok(fs) => Ok::<Seq<WireField>, WireError>(fields_of(fields@) + fs),
                Err(e) => Err::<Seq<WireField>, WireError>(e),
            },
        decreases input.len() - i,
    {
        let (key, j) = match read_varint(input, i) {
            Ok(kv) => kv,
            Err(e) => return Err(e),
        };
        proof {
            lemma_varint_bounds(input@, i as int);
        }
        let number = (key >> 3) as u32;
        let wire_type = (key & 0x07) as u8;
        if number == 0 {
            return Err(WireError::ZeroFieldNumber);
        }
        let value: RawValue;
        let next: usize;
        if wire_type == 0 {
            let (v, k) = match read_varint(input, j) {
                Ok(vk) => vk,
                Err(e) => return Err(e),
            };
            value = RawValue::Varint(v);
            next = k;
        } else if wire_type == 1 {
            if input.len() - j < 8 {
                return Err(WireError::TruncatedFixed64(number));
            }
            let v = u64_from_le_bytes(slice_subrange(input.as_slice(), j, j + 8));
            value = RawValue::Fixed64(v);
            next = j + 8;
        } else if wire_type == 2 {
            let (len, k) = match read_varint(input, j) {
                Ok(lk) => lk,
                Err(e) => return Err(e),
            };
            proof {
                lemma_varint_bounds(input@, j as int);
            }
            let n = len as usize;
            if input.len() - k < n {
                return Err(WireError::TruncatedLengthDelimited(number));
            }
            value = RawValue::LengthDelimited(copy_bytes(input, k, k + n));
            next = k + n;
        } else if wire_type == 5 {
            if input.len() - j < 4 {
                return Err(WireError::TruncatedFixed32(number));
            }
            let v = u32_from_le_bytes(slice_subrange(input.as_slice(), j, j + 4));
            value = RawValue::Fixed32(v);
            next = j + 4;
        } else if wire_type == 3 || wire_type == 4 {
            return Err(WireError::GroupsUnsupported);
        } else {
            return Err(WireError::InvalidWireType(wire_type));
        }
        assert(field_value_at(input@, j as int, number, wire_type) == Ok::<
            (WireValue, int),
            WireError,
        >((value@, next as int)));
        proof {
            lemma_field_value_bounds(input@, j as int, number, wire_type);
            lemma_then_fields(
                fields_of(fields@),
                WireField { number, value: value@ },
                fields_from(input@, next as int),
            );
        }
        let ghost before = fields@;
        fields.push(RawField { number, value });
        assert(fields_of(fields@) =~= fields_of(before).push(WireField { number, value: value@ }));
        i = next;
    }
    assert(fields_of(fields@) + seq![] =~= fields_of(fields@));
    Ok(fields)
}

// ---------------------------------------------------------------------------
// JSON view of decoded fields
// ---------------------------------------------------------------------------
/// ZigZag decoding of a varint: even values are non-negative, odd ones negative.
pub open spec fn zigzag(n: u64) -> int {
    if n % 2 == 0 {
        (n / 2) as int
    } else {
        -((n / 2) as int) - 1
    }
}

/// JSON of a length-delimited value: its Base64 and length, its text when it is
/// UTF-8, and the fields it holds when it decodes as a non-empty message.
pub open spec fn bytes_json(b: Seq<u8>) -> Json
    decreases b.len(), 2nat, 0nat,
{
    let base = seq![
        ("bytes_base64"@, Json::Text(base64_encoded(b))),
        ("len"@, Json::Number(JsonNumber::Unsigned(b.len() as u64))),
    ];
    let nested = match fields_from(b, 0) {
        Ok(fs) => if fs.len() > 0 {
            seq![("message"@, Json::Object(grouped(fs, b.len())))]
        } else {
            seq![]
        },
        Err(_) => seq![],
    };
    let text = if valid_utf8(b) {
        seq![("utf8"@, Json::Text(decode_utf8(b)))]
    } else {
        seq![]
    };
    Json::Object(base + nested + text + seq![("wire"@, Json::Text("len"@))])
}

/// JSON of one wire value; nested messages are only looked into for values shorter than `bound`.
pub open spec fn value_json(v: WireValue, bound: nat) -> Json
    decreases bound, 0nat, 0nat,
{
    match v {
        WireValue::Varint(n) => Json::Object(
            seq![
                ("value"@, Json::Number(JsonNumber::Unsigned(n))),
                ("wire"@, Json::Text("varint"@)),
                ("zigzag_i64"@, Json::Number(JsonNumber::Signed(zigzag(n) as i64))),
            ],
        ),
        WireValue::Fixed64(n) => Json::Object(
            seq![
                ("double_le"@, Json::Number(JsonNumber::Double(n))),
                ("value"@, Json::Number(JsonNumber::Unsigned(n))),
                ("wire"@, Json::Text("fixed64"@)),
            ],
        ),
        WireValue::Fixed32(n) => Json::Object(
            seq![
                ("float_le"@, Json::Number(JsonNumber::Single(n))),
                ("value"@, Json::Number(JsonNumber::Unsigned(n as u64))),
                ("wire"@, Json::Text("fixed32"@)),
            ],
        ),
        WireValue::Bytes(b) => if b.len() < bound {
            bytes_json(b)
        } else {
            Json::Null
        },
    }
}

/// Adds `v` under `key` to the map entries `es`, scanning from entry `j`: an entry
/// with the same key gets `v` appended to its array; otherwise a new entry holding
/// `[v]` goes before the first larger key, or at the end.
pub open spec fn group_into(es: Seq<(Seq<char>, Json)>, key: Seq<char>, v: Json, j: int) -> Seq<
    (Seq<char>, Json),
>
    decreases es.len() - j,
{
    if j < 0 || j >= es.len() {
        es.push((key, Json::Array(seq![v])))
    } else if es[j].0 == key {
        es.update(
            j,
            (
                key,
                match es[j].1 {
                    Json::Array(items) => Json::Array(items.push(v)),
                    other => other,
                },
            ),
        )
    } else if lex_lt(key, es[j].0) {
        es.insert(j, (key, Json::Array(seq![v])))
    } else {
        group_into(es, key, v, j + 1)
    }
}

/// The entries of the JSON object for `fs`: one per distinct field number (in
/// ascending order of its decimal text), holding the JSON of its values in order.
pub open spec fn grouped(fs: Seq<WireField>, bound: nat) -> Seq<(Seq<char>, Json)>
    decreases bound, 1nat, fs.len(),
{
    if fs.len() == 0 {
        seq![]
    } else {
        group_into(
            grouped(fs.drop_last(), bound),
            decimal(fs.last().number as nat),
            value_json(fs.last().value, bound),
            0,
        )
    }
}

/// The JSON object for decoded fields: keys are field numbers, values arrays of occurrences.
pub open spec fn message_json(fs: Seq<WireField>) -> Json {
    Json::Object(grouped(fs, usize::MAX as nat + 1))
}

/// A length-delimited value is shorter than `bound`.
pub open spec fn value_shorter(v: WireValue, bound: nat) -> bool {
    match v {
        WireValue::Bytes(b) => b.len() < bound,
        _ => true,
    }
}

pub proof fn lemma_fields_shorter(s: Seq<u8>, i: int)
    requires
        0 <= i,
    ensures
        fields_from(s, i) matches Ok(fs) ==> forall|k: int|
            0 <= k < fs.len() ==> value_shorter((#[trigger] fs[k]).value, s.len()),
    decreases s.len() - i,
{
    if 0 <= i < s.len() {
        lemma_varint_bounds(s, i);
        if let Ok((key, j)) = varint_at(s, i) {
            let number = (key >> 3) as u32;
            let wire_type = (key & 7) as u8;
            lemma_field_value_bounds(s, j, number, wire_type);
            lemma_varint_bounds(s, j);
            if let Ok((v, k)) = field_value_at(s, j, number, wire_type) {
                lemma_fields_shorter(s, k);
            }
        }
    }
}

pub proof fn lemma_json_list(items: Seq<JsonValue>)
    ensures
        json_list(items).len() == items.len(),
        forall|k: int| 0 <= k < items.len() ==> #[trigger] json_list(items)[k] == json_of(items[k]),
    decreases items.len(),
{
    if items.len() > 0 {
        lemma_json_list(items.drop_last());
    }
}

pub proof fn lemma_json_entries(entries: Seq<(String, JsonValue)>)
    ensures
        json_entries(entries).len() == entries.len(),
        forall|k: int|
            0 <= k < entries.len() ==> #[trigger] json_entries(entries)[k] == (
                entries[k].0@,
                json_of(entries[k].1),
            ),
    decreases entries.len(),
{
    if entries.len() > 0 {
        lemma_json_entries(entries.drop_last());
    }
}

fn text_value(t: &str) -> (r: JsonValue)
    ensures
        r@ == Json::Text(t@),
{
    JsonValue::Text(t.to_owned())
}

fn entry(key: &str, value: JsonValue) -> (r: (String, JsonValue))
    ensures
        r.0@ == key@,
        r.1 == value,
{
    (key.to_owned(), value)
}

proof fn lemma_object_view(entries: Seq<(String, JsonValue)>, expected: Seq<(Seq<char>, Json)>)
    requires
        entries.len() == expected.len(),
        forall|k: int|
            0 <= k < entries.len() ==> (#[trigger] entries[k]).0@ == expected[k].0 && json_of(
                entries[k].1,
            ) == expected[k].1,
    ensures
        json_entries(entries) == expected,
{
    lemma_json_entries(entries);
    assert(json_entries(entries) =~= expected);
}

fn zigzag_i64(n: u64) -> (r: i64)
    ensures
        r as int == zigzag(n),
{
    let half = (n >> 1) as i64;
    assert(n >> 1 == n / 2) by (bit_vector);
    if n & 1 == 0 {
        assert(n & 1 == 0 ==> n % 2 == 0) by (bit_vector);
        half
    } else {
        assert(n & 1 != 0 ==> n % 2 == 1) by (bit_vector);
        -half - 1
    }
}

fn value_to_json(value: &RawValue, Ghost(bound): Ghost<nat>) -> (r: JsonValue)
    requires
        value_shorter(value@, bound),
    ensures
        r@ == value_json(value@, bound),
    decreases bound, 0nat,
{
    match value {
        RawValue::Varint(n) => {
            let z = zigzag_i64(*n);
            let mut entries: Vec<(String, JsonValue)> = Vec::new();
            entries.push(entry("value", JsonValue::Number(JsonNumber::Unsigned(*n))));
            entries.push(entry("wire", text_value("varint")));
            entries.push(entry("zigzag_i64", JsonValue::Number(JsonNumber::Signed(z))));
            proof {
                lemma_object_view(
                    entries@,
                    seq![
                        ("value"@, Json::Number(JsonNumber::Unsigned(*n))),
                        ("wire"@, Json::Text("varint"@)),
                        ("zigzag_i64"@, Json::Number(JsonNumber::Signed(zigzag(*n) as i64))),
                    ],
                );
            }
            JsonValue::Object(entries)
        },
        RawValue::Fixed64(n) => {
            let mut entries: Vec<(String, JsonValue)> = Vec::new();
            entries.push(entry("double_le", JsonValue::Number(JsonNumber::Double(*n))));
            entries.push(entry("value", JsonValue::Number(JsonNumber::Unsigned(*n))));
            entries.push(entry("wire", text_value("fixed64")));
            proof {
                lemma_object_view(
                    entries@,
                    seq![
                        ("double_le"@, Json::Number(JsonNumber::Double(*n))),
                        ("value"@, Json::Number(JsonNumber::Unsigned(*n))),
                        ("wire"@, Json::Text("fixed64"@)),
                    ],
                );
            }
            JsonValue::Object(entries)
        },
        RawValue::Fixed32(n) => {
            let mut entries: Vec<(String, JsonValue)> = Vec::new();
            entries.push(entry("float_le", JsonValue::Number(JsonNumber::Single(*n))));
            entries.push(entry("value", JsonValue::Number(JsonNumber::Unsigned(*n as u64))));
            entries.push(entry("wire", text_value("fixed32")));
            proof {
                lemma_object_view(
                    entries@,
                    seq![
                        ("float_le"@, Json::Number(JsonNumber::Single(*n))),
                        ("value"@, Json::Number(JsonNumber::Unsigned(*n as u64))),
                        ("wire"@, Json::Text("fixed32"@)),
                    ],
                );
            }
            JsonValue::Object(entries)
        },
        RawValue::LengthDelimited(bytes) => bytes_to_json(bytes),
    }
}

fn bytes_to_json(bytes: &Vec<u8>) -> (r: JsonValue)
    ensures
        r@ == bytes_json(bytes@),
    decreases bytes@.len(), 2nat,
{
    let ghost b = bytes@;
    let mut entries: Vec<(String, JsonValue)> = Vec::new();
    entries.push(entry("bytes_base64", JsonValue::Text(base64_encode(bytes.as_slice()))));
    entries.push(entry("len", JsonValue::Number(JsonNumber::Unsigned(bytes.len() as u64))));
    let ghost nested_spec: Seq<(Seq<char>, Json)> = match fields_from(b, 0) {
        Ok(fs) => if fs.len() > 0 {
            seq![("message"@, Json::Object(grouped(fs, b.len())))]
        } else {
            seq![]
        },
        Err(_) => seq![],
    };
    let ghost text_spec: Seq<(Seq<char>, Json)> = if valid_utf8(b) {
        seq![("utf8"@, Json::Text(decode_utf8(b)))]
    } else {
        seq![]
    };
    match decode_message(bytes) {
        Ok(nested) => {
            if nested.len() > 0 {
                proof {
                    lemma_fields_shorter(b, 0);
                    assert forall|k: int| 0 <= k < nested@.len() implies value_shorter(
                        (#[trigger] nested@[k]).value@,
                        b.len(),
                    ) by {
                        assert(fields_of(nested@)[k] == nested@[k]@);
                    }
                }
                let m = fields_to_json(&nested, Ghost(b.len()));
                entries.push(entry("message", m));
            }
        },
        Err(_) => {},
    }
    match utf8_text(bytes.as_slice()) {
        Some(t) => {
            entries.push(entry("utf8", JsonValue::Text(t)));
        },
        None => {},
    }
    entries.push(entry("wire", text_value("len")));
    proof {
        let expected = seq![
            ("bytes_base64"@, Json::Text(base64_encoded(b))),
            ("len"@, Json::Number(JsonNumber::Unsigned(b.len() as u64))),
        ] + nested_spec + text_spec + seq![("wire"@, Json::Text("len"@))];
        lemma_object_view(entries@, expected);
    }
    JsonValue::Object(entries)
}

fn field_key(number: u32) -> (r: Vec<char>)
    ensures
        r@ == decimal(number as nat),
{
    let mut out: Vec<char> = Vec::new();
    push_decimal(&mut out, number as u64);
    assert(out@ =~= decimal(number as nat));
    out
}

/// The entries that the parallel vectors of keys and value lists stand for.
spec fn staged(keys: Seq<Vec<char>>, vals: Seq<Vec<JsonValue>>) -> Seq<(Seq<char>, Json)> {
    Seq::new(keys.len(), |k: int| (keys[k]@, Json::Array(json_list(vals[k]@))))
}

fn fields_to_json(fields: &Vec<RawField>, Ghost(bound): Ghost<nat>) -> (r: JsonValue)
    requires
        forall|k: int| 0 <= k < fields@.len() ==> value_shorter((#[trigger] fields@[k]).value@, bound),
    ensures
        r@ == Json::Object(grouped(fields_of(fields@), bound)),
    decreases bound, 1nat,
{
    let ghost fs = fields_of(fields@);
    let mut keys: Vec<Vec<char>> = Vec::new();
    let mut vals: Vec<Vec<JsonValue>> = Vec::new();
    let mut i: usize = 0;
    assert(staged(keys@, vals@) =~= grouped(fs.take(0), bound));
    while i < fields.len()
        invariant
            i <= fields.len(),
            fs == fields_of(fields@),
            keys@.len() == vals@.len(),
            staged(keys@, vals@) == grouped(fs.take(i as int), bound),
            forall|k: int|
                0 <= k < fields@.len() ==> value_shorter((#[trigger] fields@[k]).value@, bound),
        decreases fields.len() - i,
    {
        let field = &fields[i];
        let key = field_key(field.number);
        let v = value_to_json(&field.value, Ghost(bound));
        let ghost es = staged(keys@, vals@);
        assert(fs.take(i + 1).drop_last() =~= fs.take(i as int));
        assert(fs.take(i + 1).last() == field@);
        assert(grouped(fs.take(i + 1), bound) == group_into(es, key@, v@, 0));
        let mut j: usize = 0;
        loop
            invariant_except_break
                j <= keys@.len(),
                es == staged(keys@, vals@),
                group_into(es, key@, v@, 0) == group_into(es, key@, v@, j as int),
            invariant
                keys@.len() == vals@.len(),
            ensures
                staged(keys@, vals@) == group_into(es, key@, v@, 0),
            decreases keys@.len() - j,
        {
            if j == keys.len() {
                let ghost ks = keys@;
                let ghost vs = vals@;
                keys.push(key);
                let mut single: Vec<JsonValue> = Vec::new();
                single.push(v);
                assert(json_list(single@) =~= seq![v@]) by {
                    assert(single@.drop_last() =~= Seq::<JsonValue>::empty());
                    assert(json_list(Seq::<JsonValue>::empty()) =~= Seq::<Json>::empty());
                }
                vals.push(single);
                assert(staged(keys@, vals@) =~= es.push((key@, Json::Array(seq![v@])))) by {
                    assert forall|k: int| 0 <= k < ks.len() implies #[trigger] keys@[k] == ks[k]
                        && vals@[k] == vs[k] by {}
                }
                break ;
            }
            match compare(&key, &keys[j]) {
                Order::Equal => {
                    let ghost ks = keys@;
                    let ghost vs = vals@;
                    let mut items = vals.remove(j);
                    let ghost old_items = items@;
                    items.push(v);
                    assert(json_list(items@) =~= json_list(old_items).push(v@)) by {
                        assert(items@.drop_last() =~= old_items);
                    }
                    vals.insert(j, items);
                    assert(vals@ =~= vs.update(j as int, items));
                    assert(staged(keys@, vals@) =~= es.update(
                        j as int,
                        (key@, Json::Array(json_list(old_items).push(v@))),
                    ));
                    break ;
                },
                Order::Less => {
                    let ghost ks = keys@;
                    let ghost vs = vals@;
                    keys.insert(j, key);
                    let mut single: Vec<JsonValue> = Vec::new();
                    single.push(v);
                    assert(json_list(single@) =~= seq![v@]) by {
                        assert(single@.drop_last() =~= Seq::<JsonValue>::empty());
                        assert(json_list(Seq::<JsonValue>::empty()) =~= Seq::<Json>::empty());
                    }
                    vals.insert(j, single);
                    assert(staged(keys@, vals@) =~= es.insert(
                        j as int,
                        (key@, Json::Array(seq![v@])),
                    ));
                    break ;
                },
                Order::Greater => {
                    proof {
                        crate::text::lemma_lex_total(key@, keys@[j as int]@);
                    }
                    j += 1;
                },
            }
        }
        i += 1;
    }
    assert(fs.take(fields.len() as int) =~= fs);
    let ghost total = staged(keys@, vals@);
    let mut entries: Vec<(String, JsonValue)> = Vec::new();
    assert(total.skip(0) =~= total);
    while keys.len() > 0
        invariant
            keys@.len() == vals@.len(),
            entries@.len() + keys@.len() == total.len(),
            forall|k: int|
                0 <= k < entries@.len() ==> (#[trigger] entries@[k]).0@ == total[k].0 && json_of(
                    entries@[k].1,
                ) == total[k].1,
            staged(keys@, vals@) == total.skip(entries@.len() as int),
        decreases keys@.len(),
    {
        let ghost ks = keys@;
        let ghost vs = vals@;
        let ghost m: int = entries@.len() as int;
        let key = keys.remove(0);
        let items = vals.remove(0);
        assert(staged(ks, vs)[0] == total[m as int]);
        assert(staged(keys@, vals@) =~= total.skip(m + 1int)) by {
            assert forall|k: int| 0 <= k < keys@.len() implies #[trigger] staged(keys@, vals@)[k]
                == total.skip(m + 1int)[k] by {
                assert(keys@[k] == ks[k + 1]);
                assert(vals@[k] == vs[k + 1]);
                assert(staged(ks, vs)[k + 1] == total.skip(m as int)[k + 1]);
            }
        }
        entries.push((string_of(key.as_slice()), JsonValue::Array(items)));
    }
    proof {
        lemma_object_view(entries@, total);
    }
    JsonValue::Object(entries)
}

/// JSON view of decoded fields: an object keyed by field number whose values are
/// the arrays of that field's occurrences.
pub fn to_json(fields: &Vec<RawField>) -> (r: JsonValue)
    ensures
        r@ == message_json(fields_of(fields@)),
{
    assert forall|k: int| 0 <= k < fields@.len() implies value_shorter(
        (#[trigger] fields@[k]).value@,
        usize::MAX as nat + 1,
    ) by {
        if let RawValue::LengthDelimited(b) = fields@[k].value {
            assert(b@.len() == b.len());
        }
    }
    fields_to_json(fields, Ghost(usize::MAX as nat + 1))
}

// ---------------------------------------------------------------------------
// Raw bytes back from JSON
// ---------------------------------------------------------------------------
/// The bytes a selected JSON value stands for: the decoded `bytes_base64` text of an
/// object, or the concatenation over an array's items (`None` if any item has none).
pub open spec fn raw_bytes(v: JsonValue) -> Option<Seq<u8>>
    decreases v, 1nat,
{
    match v {
        JsonValue::Object(entries) => match entry_index(entries@, "bytes_base64"@) {
            Some(i) => match entries@[i].1 {
                JsonValue::Text(t) => base64_decoded(t@),
                _ => None,
            },
            None => None,
        },
        JsonValue::Array(items) => raw_bytes_list(items@),
        _ => None,
    }
}

pub open spec fn raw_bytes_list(items: Seq<JsonValue>) -> Option<Seq<u8>>
    decreases items, 0nat,
{
    if items.len() == 0 {
        Some(seq![])
    } else {
        match (raw_bytes_list(items.drop_last()), raw_bytes(items.last())) {
            (Some(a), Some(b)) => Some(a + b),
            _ => None,
        }
    }
}

/// The bytes behind a selected value (see [`raw_bytes`]). The JSON of a
/// length-delimited value gives back exactly its bytes.
pub fn raw_bytes_from_json(value: &JsonValue) -> (r: Option<Vec<u8>>)
    ensures
        match r {
            Some(b) => raw_bytes(*value) == Some(b@),
            None => raw_bytes(*value) is None,
        },
        forall|b: Seq<u8>| value@ == #[trigger] bytes_json(b) ==> r.is_some() && r.unwrap()@ == b,
    decreases *value, 1nat,
{
    match value {
        JsonValue::Object(entries) => {
            proof {
                lemma_json_entries(entries@);
                crate::json::lemma_entry_index(entries@, "bytes_base64"@, 0);
            }
            let r = match object_get(entries, "bytes_base64") {
                Some(item) => match item {
                    JsonValue::Text(t) => base64_decode(t.as_str()),
                    _ => None,
                },
                None => None,
            };
            proof {
                if r is Some {
                    let bs = r->Some_0;
                    if let Some(i) = entry_index(entries@, "bytes_base64"@) {
                        if let JsonValue::Text(t) = entries@[i].1 {
                            crate::encoding::lemma_base64_decoded_of(t@, bs@);
                        }
                    }
                }
                assert forall|b: Seq<u8>| value@ == #[trigger] bytes_json(b) implies r.is_some()
                    && r.unwrap()@ == b by {
                    lemma_raw_bytes_of_bytes_json(*value, b);
                }
            }
            r
        },
        JsonValue::Array(items) => raw_bytes_from_items(items),
        _ => None,
    }
}

fn raw_bytes_from_items(items: &Vec<JsonValue>) -> (r: Option<Vec<u8>>)
    ensures
        match r {
            Some(b) => raw_bytes_list(items@) == Some(b@),
            None => raw_bytes_list(items@) is None,
        },
    decreases items@, 0nat,
{
    let mut out: Vec<u8> = Vec::new();
    let mut i: usize = 0;
    assert(items@.take(0) =~= Seq::<JsonValue>::empty());
    while i < items.len()
        invariant
            i <= items.len(),
            raw_bytes_list(items@.take(i as int)) == Some(out@),
        decreases items.len() - i,
    {
        assert(items@.take(i + 1).drop_last() =~= items@.take(i as int));
        match raw_bytes_from_json(&items[i]) {
            Some(mut part) => {
                out.append(&mut part);
            },
            None => {
                proof {
                    lemma_raw_bytes_list_none(items@, i as int + 1);
                }
                return None;
            },
        }
        i += 1;
    }
    assert(items@.take(items.len() as int) =~= items@);
    Some(out)
}

/// The bytes behind the JSON of a length-delimited value are that value's bytes.
pub proof fn lemma_raw_bytes_of_bytes_json(v: JsonValue, b: Seq<u8>)
    requires
        v@ == bytes_json(b),
    ensures
        raw_bytes(v) == Some(b),
{
    match v {
        JsonValue::Object(entries) => {
            lemma_json_entries(entries@);
            let es = json_entries(entries@);
            let first = ("bytes_base64"@, Json::Text(base64_encoded(b)));
            assert(Json::Object(es) == bytes_json(b));
            assert(es[0] == first);
            assert(entries@.len() > 0);
            assert(es[0] == (entries@[0].0@, json_of(entries@[0].1)));
            assert(entries@[0].0@ == "bytes_base64"@);
            crate::json::lemma_entry_index(entries@, "bytes_base64"@, 0);
            assert(entry_index(entries@, "bytes_base64"@) == Some(0int));
            match entries@[0].1 {
                JsonValue::Text(t) => {
                    assert(t@ == base64_encoded(b));
                    crate::encoding::lemma_base64_decoded_of(t@, b);
                },
                _ => {
                    assert(false);
                },
            }
        },
        _ => {
            assert(false);
        },
    }
}

/// Raw bytes round trip: for a JSON value shaped as the JSON of a length-delimited
/// value, or an array of such values, the bytes taken back are exactly the values'
/// bytes, concatenated in order.
pub proof fn law_raw_bytes_round_trip(items: Seq<JsonValue>, bs: Seq<Seq<u8>>)
    requires
        items.len() == bs.len(),
        forall|i: int| 0 <= i < items.len() ==> (#[trigger] items[i])@ == bytes_json(bs[i]),
    ensures
        raw_bytes_list(items) == Some(bs.flatten()),
        items.len() == 1 ==> raw_bytes(items[0]) == Some(bs[0]),
    decreases items.len(),
{
    bs.lemma_flatten_and_flatten_alt_are_equivalent();
    if items.len() > 0 {
        let n = items.len() - 1;
        law_raw_bytes_round_trip(items.drop_last(), bs.drop_last());
        bs.drop_last().lemma_flatten_and_flatten_alt_are_equivalent();
        lemma_raw_bytes_of_bytes_json(items[n], bs[n]);
        lemma_raw_bytes_of_bytes_json(items[0], bs[0]);
    } else {
        assert(bs.flatten_alt() =~= Seq::<u8>::empty());
    }
}

/// The JSON of a varint, fixed64 or fixed32 value stands for no raw bytes.
pub proof fn law_scalars_have_no_raw_bytes(v: JsonValue, w: WireValue, bound: nat)
    requires
        !(w is Bytes),
        v@ == value_json(w, bound),
    ensures
        raw_bytes(v) is None,
{
    reveal_strlit("bytes_base64");
    reveal_strlit("value");
    reveal_strlit("wire");
    reveal_strlit("zigzag_i64");
    reveal_strlit("double_le");
    reveal_strlit("float_le");
    assert("value"@.len() != "bytes_base64"@.len());
    assert("wire"@.len() != "bytes_base64"@.len());
    assert("zigzag_i64"@.len() != "bytes_base64"@.len());
    assert("double_le"@.len() != "bytes_base64"@.len());
    assert("float_le"@.len() != "bytes_base64"@.len());
    match v {
        JsonValue::Object(entries) => {
            lemma_json_entries(entries@);
            let es = json_entries(entries@);
            assert(es.len() == 3);
            assert forall|k: int| 0 <= k < entries@.len() implies (#[trigger] entries@[k]).0@
                != "bytes_base64"@ by {
                assert(es[k] == (entries@[k].0@, json_of(entries@[k].1)));
            }
            crate::json::lemma_entry_index(entries@, "bytes_base64"@, entries@.len() as int);
        },
        _ => {},
    }
}

proof fn lemma_raw_bytes_list_none(items: Seq<JsonValue>, i: int)
    requires
        0 <= i <= items.len(),
        raw_bytes_list(items.take(i)) is None,
    ensures
        raw_bytes_list(items) is None,
    decreases items.len() - i,
{
    if i < items.len() {
        assert(items.take(i + 1).drop_last() =~= items.take(i));
        lemma_raw_bytes_list_none(items, i + 1);
    } else {
        assert(items.take(i) =~= items);
    }
}


// ---------------------------------------------------------------------------
// Decoding concatenated messages
// ---------------------------------------------------------------------------
pub open spec fn shifted_varint(r: Result<(u64, int), WireError>, d: int) -> Result<(u64, int), WireError> {
    match r {
        Ok((v, j)) => Ok((v, j + d)),
        Err(e) => Err(e),
    }
}

pub open spec fn shifted_value(r: Result<(WireValue, int), WireError>, d: int) -> Result<(WireValue, int), WireError> {
    match r {
        Ok((v, j)) => Ok((v, j + d)),
        Err(e) => Err(e),
    }
}

proof fn lemma_varint_shift(p: Seq<u8>, s: Seq<u8>, i: int, k: int, acc: u64)
    requires
        0 <= i,
        0 <= k,
    ensures
        varint_from(p + s, i + p.len(), k, acc) == shifted_varint(varint_from(s, i, k, acc), p.len() as int),
    decreases 10 - k,
{
    if k < 10 && i + k < s.len() {
        assert((p + s)[i + p.len() + k] == s[i + k]);
        let byte = s[i + k];
        let acc2 = acc | (((byte & 0x7f) as u64) << ((7 * k) as u64));
        lemma_varint_shift(p, s, i, k + 1, acc2);
    }
}

proof fn lemma_varint_extend(a: Seq<u8>, b: Seq<u8>, i: int, k: int, acc: u64)
    requires
        0 <= i,
        0 <= k,
        varint_from(a, i, k, acc) is Ok,
    ensures
        varint_from(a + b, i, k, acc) == varint_from(a, i, k, acc),
    decreases 10 - k,
{
    if k < 10 && i + k < a.len() {
        assert((a + b)[i + k] == a[i + k]);
        let byte = a[i + k];
        let acc2 = acc | (((byte & 0x7f) as u64) << ((7 * k) as u64));
        if byte & 0x80 != 0 {
            lemma_varint_extend(a, b, i, k + 1, acc2);
        }
    }
}

proof fn lemma_value_shift(p: Seq<u8>, s: Seq<u8>, j: int, number: u32, wire_type: u8)
    requires
        0 <= j <= s.len(),
    ensures
        field_value_at(p + s, j + p.len(), number, wire_type) == shifted_value(
            field_value_at(s, j, number, wire_type),
            p.len() as int,
        ),
{
    let d = p.len() as int;
    lemma_varint_shift(p, s, j, 0, 0);
    if wire_type == 1 && s.len() - j >= 8 {
        assert((p + s).subrange(j + d, j + d + 8) =~= s.subrange(j, j + 8));
    }
    if wire_type == 5 && s.len() - j >= 4 {
        assert((p + s).subrange(j + d, j + d + 4) =~= s.subrange(j, j + 4));
    }
    if wire_type == 2 {
        if let Ok((len, k)) = varint_at(s, j) {
            lemma_varint_bounds(s, j);
            let n = len as usize;
            if s.len() - k >= n {
                assert((p + s).subrange(k + d, k + d + n) =~= s.subrange(k, k + n));
            }
        }
    }
}

proof fn lemma_value_extend(a: Seq<u8>, b: Seq<u8>, j: int, number: u32, wire_type: u8)
    requires
        0 <= j <= a.len(),
        field_value_at(a, j, number, wire_type) is Ok,
    ensures
        field_value_at(a + b, j, number, wire_type) == field_value_at(a, j, number, wire_type),
{
    if wire_type == 0 || wire_type == 2 {
        lemma_varint_extend(a, b, j, 0, 0);
    }
    if wire_type == 1 {
        assert((a + b).subrange(j, j + 8) =~= a.subrange(j, j + 8));
    }
    if wire_type == 5 {
        assert((a + b).subrange(j, j + 4) =~= a.subrange(j, j + 4));
    }
    if wire_type == 2 {
        let (len, k) = varint_at(a, j)->Ok_0;
        lemma_varint_bounds(a, j);
        let n = len as usize;
        assert((a + b).subrange(k, k + n) =~= a.subrange(k, k + n));
    }
}

proof fn lemma_fields_shift(p: Seq<u8>, s: Seq<u8>, i: int)
    requires
        0 <= i <= s.len(),
    ensures
        fields_from(p + s, i + p.len()) == fields_from(s, i),
    decreases s.len() - i,
{
    let d = p.len() as int;
    if i < s.len() {
        lemma_varint_shift(p, s, i, 0, 0);
        if let Ok((key, j)) = varint_at(s, i) {
            lemma_varint_bounds(s, i);
            let number = (key >> 3) as u32;
            let wire_type = (key & 7) as u8;
            if number != 0 {
                lemma_value_shift(p, s, j, number, wire_type);
                lemma_field_value_bounds(s, j, number, wire_type);
                if let Ok((v, k)) = field_value_at(s, j, number, wire_type) {
                    lemma_fields_shift(p, s, k);
                }
            }
        }
    }
}

proof fn lemma_fields_extend(a: Seq<u8>, b: Seq<u8>, i: int)
    requires
        0 <= i <= a.len(),
        fields_from(a, i) is Ok,
    ensures
        fields_from(a + b, i) == match fields_from(b, 0) {
            Ok(y) => Ok::<Seq<WireField>, WireError>(fields_from(a, i)->Ok_0 + y),
            Err(e) => Err::<Seq<WireField>, WireError>(e),
        },
    decreases a.len() - i,
{
    if i < a.len() {
        lemma_varint_extend(a, b, i, 0, 0);
        let (key, j) = varint_at(a, i)->Ok_0;
        lemma_varint_bounds(a, i);
        let number = (key >> 3) as u32;
        let wire_type = (key & 7) as u8;
        lemma_value_extend(a, b, j, number, wire_type);
        lemma_field_value_bounds(a, j, number, wire_type);
        let (v, k) = field_value_at(a, j, number, wire_type)->Ok_0;
        lemma_fields_extend(a, b, k);
        let f = WireField { number, value: v };
        if let Ok(y) = fields_from(b, 0) {
            assert(seq![f] + (fields_from(a, k)->Ok_0 + y) =~= (seq![f] + fields_from(a, k)->Ok_0) + y);
        }
    } else {
        lemma_fields_shift(a, b, 0);
        assert(fields_from(a, i)->Ok_0 =~= seq![]);
        if let Ok(y) = fields_from(b, 0) {
            assert(Seq::<WireField>::empty() + y =~= y);
        }
    }
}

/// Decoding concatenated messages: when `a` and `b` decode, `a` followed by `b`
/// decodes to the fields of `a` followed by those of `b`; empty input decodes to no
/// fields.
pub proof fn law_decode_concatenation(a: Seq<u8>, b: Seq<u8>)
    ensures
        decoded(seq![]) == Ok::<Seq<WireField>, WireError>(seq![]),
        decoded(a) is Ok && decoded(b) is Ok ==> decoded(a + b) == Ok::<Seq<WireField>, WireError>(
            decoded(a)->Ok_0 + decoded(b)->Ok_0,
        ),
{
    if decoded(a) is Ok && decoded(b) is Ok {
        lemma_fields_extend(a, b, 0);
    }
}


// ---------------------------------------------------------------------------
// Decoding what was encoded
// ---------------------------------------------------------------------------
/// The base-128 varint of `m`: seven bits per byte, low bits first, the high bit set
/// on every byte but the last.
pub open spec fn varint_bytes(m: nat) -> Seq<u8>
    decreases m,
{
    if m < 128 {
        seq![m as u8]
    } else {
        seq![(m % 128 + 128) as u8] + varint_bytes(m / 128)
    }
}

proof fn lemma_or_add(acc: u64, x: u64, sh: u64)
    by (bit_vector)
    requires
        sh < 64,
        acc < (1u64 << sh),
    ensures
        (acc | (x << sh)) == acc + (x << sh),
{
}

proof fn lemma_byte_more(b: u8)
    by (bit_vector)
    requires
        b >= 128,
    ensures
        b & 0x80 != 0,
        (b & 0x7f) == b - 128,
{
}

proof fn lemma_byte_last(b: u8)
    by (bit_vector)
    requires
        b < 128,
    ensures
        b & 0x80 == 0,
        (b & 0x7f) == b,
{
}

#[verifier::rlimit(40)]
proof fn lemma_varint_read(s: Seq<u8>, i: int, k: int, acc: u64, m: nat)
    requires
        0 <= i,
        0 <= k < 10,
        i + k + varint_bytes(m).len() <= s.len(),
        s.subrange(i + k, i + k + varint_bytes(m).len()) == varint_bytes(m),
        acc < pow2((7 * k) as nat),
        acc + m * pow2((7 * k) as nat) <= u64::MAX,
    ensures
        varint_from(s, i, k, acc) == Ok::<(u64, int), WireError>(
            ((acc + m * pow2((7 * k) as nat)) as u64, i + k + varint_bytes(m).len()),
        ),
    decreases m,
{
    let sh = (7 * k) as nat;
    let p = pow2(sh);
    lemma_pow2_pos(sh);
    lemma2_to64();
    lemma2_to64_rest();
    if sh < 63 {
        lemma_pow2_strictly_increases(sh, 63);
    }
    assert(p <= u64::MAX);
    let vb = varint_bytes(m);
    let byte = s[i + k];
    assert(byte == s.subrange(i + k, i + k + vb.len())[0]);
    let low: nat = m % 128;
    assert(low * p <= m * p) by (nonlinear_arith)
        requires
            low <= m,
    ;
    lemma_u64_shl_is_mul(low as u64, sh as u64);
    lemma_u64_shl_is_mul(1u64, sh as u64);
    lemma_or_add(acc, low as u64, sh as u64);
    let acc2 = (acc + low * p) as u64;
    if m < 128 {
        assert(vb == seq![m as u8]);
        lemma_byte_last(byte);
        assert((byte & 0x7f) as u64 == low as u64);
        assert(acc | (((byte & 0x7f) as u64) << ((7 * k) as u64)) == acc2);
    } else {
        let m2 = m / 128;
        let rest = varint_bytes(m2);
        assert(vb == seq![(m % 128 + 128) as u8] + rest);
        lemma_byte_more(byte);
        assert((byte & 0x7f) as u64 == low as u64);
        assert(acc | (((byte & 0x7f) as u64) << ((7 * k) as u64)) == acc2);
        lemma_pow2_adds(sh, 7);
        assert(pow2(sh + 7) == p * 128);
        assert(m == m2 * 128 + low);
        assert(128 * p <= m * p) by (nonlinear_arith)
            requires
                128 <= m,
        ;
        if sh + 7 >= 64 {
            if sh + 7 > 64 {
                lemma_pow2_strictly_increases(64, sh + 7);
            }
            assert(false);
        }
        assert(k + 1 < 10);
        assert(acc2 < pow2((7 * (k + 1)) as nat)) by (nonlinear_arith)
            requires
                acc < p,
                low < 128,
                acc2 == acc + low * p,
                pow2((7 * (k + 1)) as nat) == p * 128,
        ;
        assert(acc2 + m2 * pow2((7 * (k + 1)) as nat) == acc + m * p) by (nonlinear_arith)
            requires
                acc2 == acc + low * p,
                m == m2 * 128 + low,
                pow2((7 * (k + 1)) as nat) == p * 128,
        ;
        assert(s.subrange(i + k + 1, i + k + 1 + rest.len()) =~= s.subrange(i + k, i + k + vb.len()).skip(1));
        assert(vb.skip(1) =~= rest);
        lemma_varint_read(s, i, k + 1, acc2, m2);
    }
}

/// The varint of `m` at `i` reads back as `m`, ending where its bytes end.
proof fn lemma_varint_at(s: Seq<u8>, i: int, m: nat)
    requires
        0 <= i,
        m <= u64::MAX,
        i + varint_bytes(m).len() <= s.len(),
        s.subrange(i, i + varint_bytes(m).len()) == varint_bytes(m),
    ensures
        varint_at(s, i) == Ok::<(u64, int), WireError>((m as u64, i + varint_bytes(m).len())),
{
    lemma2_to64();
    assert(pow2(0) == 1);
    assert(m * pow2(0) == m);
    lemma_varint_read(s, i, 0, 0, m);
}


/// The wire bytes of one field: its key (`number * 8 + wire type`) as a varint,
/// then its value: a varint, eight or four little-endian bytes, or a varint length
/// followed by the bytes.
pub open spec fn field_bytes(f: WireField) -> Seq<u8> {
    let key = f.number as nat * 8;
    match f.value {
        WireValue::Varint(n) => varint_bytes(key) + varint_bytes(n as nat),
        WireValue::Fixed64(n) => varint_bytes(key + 1) + spec_u64_to_le_bytes(n),
        WireValue::Bytes(b) => varint_bytes(key + 2) + (varint_bytes(b.len()) + b),
        WireValue::Fixed32(n) => varint_bytes(key + 5) + spec_u32_to_le_bytes(n),
    }
}

/// The wire bytes of fields, one after another.
pub open spec fn message_bytes(fs: Seq<WireField>) -> Seq<u8>
    decreases fs.len(),
{
    if fs.len() == 0 {
        seq![]
    } else {
        message_bytes(fs.drop_last()) + field_bytes(fs.last())
    }
}

/// A field that can be written: a field number from 1 on, and bytes whose length
/// fits a `usize`.
pub open spec fn encodable(f: WireField) -> bool {
    &&& f.number >= 1
    &&& f.value matches WireValue::Bytes(b) ==> b.len() <= usize::MAX
}

proof fn lemma_key_parts(key: u64, n: u64, wt: u64)
    by (bit_vector)
    requires
        n < 0x1_0000_0000,
        wt < 8,
        key == n * 8 + wt,
    ensures
        key >> 3 == n,
        key & 7 == wt,
{
}

#[verifier::rlimit(40)]
proof fn lemma_field_round_trip(f: WireField)
    requires
        encodable(f),
    ensures
        decoded(field_bytes(f)) == Ok::<Seq<WireField>, WireError>(seq![f]),
{
    lemma_auto_spec_u64_to_from_le_bytes();
    lemma_auto_spec_u32_to_from_le_bytes();
    let wt: nat = match f.value {
        WireValue::Varint(_) => 0,
        WireValue::Fixed64(_) => 1,
        WireValue::Bytes(_) => 2,
        WireValue::Fixed32(_) => 5,
    };
    let key: nat = f.number as nat * 8 + wt;
    let kb = varint_bytes(key);
    let t = field_bytes(f);
    let vpart = t.skip(kb.len() as int);
    assert(t =~= kb + vpart);
    assert(t.subrange(0, kb.len() as int) =~= kb);
    lemma_varint_at(t, 0, key);
    lemma_key_parts(key as u64, f.number as u64, wt as u64);
    let j = kb.len() as int;
    match f.value {
        WireValue::Varint(n) => {
            assert(vpart =~= varint_bytes(n as nat));
            assert(t.subrange(j, j + vpart.len()) =~= vpart);
            lemma_varint_at(t, j, n as nat);
        },
        WireValue::Fixed64(n) => {
            assert(vpart =~= spec_u64_to_le_bytes(n));
            assert(t.subrange(j, j + 8) =~= vpart);
        },
        WireValue::Bytes(b) => {
            let lb = varint_bytes(b.len());
            assert(vpart =~= lb + b);
            assert(t.subrange(j, j + lb.len()) =~= lb);
            lemma_varint_at(t, j, b.len());
            let k2 = j + lb.len();
            assert(t.subrange(k2, k2 + b.len()) =~= b);
        },
        WireValue::Fixed32(n) => {
            assert(vpart =~= spec_u32_to_le_bytes(n));
            assert(t.subrange(j, j + 4) =~= vpart);
        },
    }
    assert(fields_from(t, t.len() as int) == Ok::<Seq<WireField>, WireError>(seq![]));
    assert(seq![f] + Seq::<WireField>::empty() =~= seq![f]);
}

/// Decoding gives back what was encoded: the wire bytes of fields with numbers from
/// 1 on decode to exactly those fields, in order.
pub proof fn law_decode_round_trip(fs: Seq<WireField>)
    requires
        forall|i: int| 0 <= i < fs.len() ==> encodable(#[trigger] fs[i]),
    ensures
        decoded(message_bytes(fs)) == Ok::<Seq<WireField>, WireError>(fs),
    decreases fs.len(),
{
    if fs.len() == 0 {
        assert(fs =~= seq![]);
    } else {
        let front = fs.drop_last();
        assert forall|i: int| 0 <= i < front.len() implies encodable(#[trigger] front[i]) by {
            assert(front[i] == fs[i]);
        }
        law_decode_round_trip(front);
        assert(encodable(fs[fs.len() - 1]));
        lemma_field_round_trip(fs.last());
        law_decode_concatenation(message_bytes(front), field_bytes(fs.last()));
        assert(front + seq![fs.last()] =~= fs);
    }
}


// ---------------------------------------------------------------------------
// The JSON object of a message, key by key
// ---------------------------------------------------------------------------
/// Entry keys strictly increase.
pub open spec fn sorted_keys(es: Seq<(Seq<char>, Json)>) -> bool {
    forall|a: int, b: int| 0 <= a < b < es.len() ==> lex_lt(#[trigger] es[a].0, #[trigger] es[b].0)
}

/// Some entry has key `k`.
pub open spec fn has_key(es: Seq<(Seq<char>, Json)>, k: Seq<char>) -> bool {
    exists|i: int| 0 <= i < es.len() && (#[trigger] es[i]).0 == k
}

/// An index of an entry with key `k`, when there is one.
pub open spec fn key_index(es: Seq<(Seq<char>, Json)>, k: Seq<char>) -> int {
    choose|i: int| 0 <= i < es.len() && (#[trigger] es[i]).0 == k
}

/// The items of the array under key `k` (none when there is no such entry).
pub open spec fn items_under(es: Seq<(Seq<char>, Json)>, k: Seq<char>) -> Seq<Json> {
    if has_key(es, k) {
        match es[key_index(es, k)].1 {
            Json::Array(items) => items,
            _ => seq![],
        }
    } else {
        seq![]
    }
}

/// Every entry holds an array.
pub open spec fn all_arrays(es: Seq<(Seq<char>, Json)>) -> bool {
    forall|i: int| 0 <= i < es.len() ==> (#[trigger] es[i]).1 is Array
}

/// The values of the fields whose number reads `key`, in order.
pub open spec fn keyed_values(fs: Seq<WireField>, key: Seq<char>) -> Seq<WireValue>
    decreases fs.len(),
{
    if fs.len() == 0 {
        seq![]
    } else if decimal(fs.last().number as nat) == key {
        keyed_values(fs.drop_last(), key).push(fs.last().value)
    } else {
        keyed_values(fs.drop_last(), key)
    }
}

proof fn lemma_items_under(es: Seq<(Seq<char>, Json)>, k: Seq<char>, i: int)
    requires
        sorted_keys(es),
        0 <= i < es.len(),
        es[i].0 == k,
    ensures
        has_key(es, k),
        items_under(es, k) == match es[i].1 {
            Json::Array(items) => items,
            _ => seq![],
        },
{
    assert(0 <= i < es.len() && es[i].0 == k);
    assert(has_key(es, k));
    let c = key_index(es, k);
    assert(0 <= c < es.len() && es[c].0 == k);
    if c != i {
        lemma_lex_irreflexive(k);
        if c < i {
            assert(lex_lt(es[c].0, es[i].0));
        } else {
            assert(lex_lt(es[i].0, es[c].0));
        }
    }
    assert(c == i);
    assert(items_under(es, k) == match es[c].1 {
        Json::Array(items) => items,
        _ => seq![],
    });
}

#[verifier::rlimit(60)]
proof fn lemma_group_into(es: Seq<(Seq<char>, Json)>, key: Seq<char>, v: Json, j: int)
    requires
        sorted_keys(es),
        all_arrays(es),
        0 <= j <= es.len(),
        forall|i: int| 0 <= i < j ==> lex_lt(#[trigger] es[i].0, key),
    ensures
        sorted_keys(group_into(es, key, v, j)),
        all_arrays(group_into(es, key, v, j)),
        forall|k: Seq<char>| #[trigger] has_key(group_into(es, key, v, j), k) <==> (has_key(es, k) || k == key),
        forall|k: Seq<char>| k != key ==> #[trigger] items_under(group_into(es, key, v, j), k) == items_under(es, k),
        items_under(group_into(es, key, v, j), key) == items_under(es, key).push(v),
    decreases es.len() - j,
{
    lemma_lex_irreflexive(key);
    let r = group_into(es, key, v, j);
    if j >= es.len() {
        assert(!has_key(es, key)) by {
            if has_key(es, key) {
                let c = choose|c: int| 0 <= c < es.len() && (#[trigger] es[c]).0 == key;
                assert(lex_lt(es[c].0, key));
            }
        }
        assert(r == es.push((key, Json::Array(seq![v]))));
        assert forall|a: int, b: int| 0 <= a < b < r.len() implies lex_lt(#[trigger] r[a].0, #[trigger] r[b].0) by {
            if b == es.len() {
                assert(lex_lt(es[a].0, key));
            } else {
                assert(lex_lt(es[a].0, es[b].0));
            }
        }
        lemma_items_under(r, key, es.len() as int);
        assert(seq![v] =~= Seq::<Json>::empty().push(v));
        assert forall|k: Seq<char>| #[trigger] has_key(r, k) <==> (has_key(es, k) || k == key) by {
            if has_key(es, k) {
                let c = choose|c: int| 0 <= c < es.len() && (#[trigger] es[c]).0 == k;
                assert(r[c] == es[c]);
            }
            if has_key(r, k) && k != key {
                let c = choose|c: int| 0 <= c < r.len() && (#[trigger] r[c]).0 == k;
                assert(c < es.len() && es[c] == r[c]);
            }
        }
        assert forall|k: Seq<char>| k != key implies #[trigger] items_under(r, k) == items_under(es, k) by {
            if has_key(es, k) {
                let c = choose|c: int| 0 <= c < es.len() && (#[trigger] es[c]).0 == k;
                lemma_items_under(es, k, c);
                lemma_items_under(r, k, c);
            } else {
                assert(!has_key(r, k));
            }
        }
    } else if es[j].0 == key {
        let items = es[j].1->Array_0;
        assert(r == es.update(j, (key, Json::Array(items.push(v)))));
        lemma_items_under(es, key, j);
        lemma_items_under(r, key, j);
        assert forall|a: int, b: int| 0 <= a < b < r.len() implies lex_lt(#[trigger] r[a].0, #[trigger] r[b].0) by {
            assert(r[a].0 == es[a].0 && r[b].0 == es[b].0);
        }
        assert forall|k: Seq<char>| #[trigger] has_key(r, k) <==> (has_key(es, k) || k == key) by {
            if has_key(es, k) {
                let c = choose|c: int| 0 <= c < es.len() && (#[trigger] es[c]).0 == k;
                assert(r[c].0 == es[c].0);
            }
            if has_key(r, k) {
                let c = choose|c: int| 0 <= c < r.len() && (#[trigger] r[c]).0 == k;
                assert(r[c].0 == es[c].0);
            }
        }
        assert forall|k: Seq<char>| k != key implies #[trigger] items_under(r, k) == items_under(es, k) by {
            if has_key(es, k) {
                let c = choose|c: int| 0 <= c < es.len() && (#[trigger] es[c]).0 == k;
                assert(c != j);
                lemma_items_under(es, k, c);
                lemma_items_under(r, k, c);
            } else {
                assert(!has_key(r, k));
            }
        }
    } else if lex_lt(key, es[j].0) {
        assert(r == es.insert(j, (key, Json::Array(seq![v]))));
        assert forall|i: int| j <= i < es.len() implies lex_lt(key, #[trigger] es[i].0) by {
            if i > j {
                assert(lex_lt(es[j].0, es[i].0));
                lemma_lex_transitive(key, es[j].0, es[i].0);
            }
        }
        assert(!has_key(es, key)) by {
            if has_key(es, key) {
                let c = choose|c: int| 0 <= c < es.len() && (#[trigger] es[c]).0 == key;
                if c < j {
                    assert(lex_lt(es[c].0, key));
                } else {
                    assert(lex_lt(key, es[c].0));
                }
            }
        }
        assert forall|a: int, b: int| 0 <= a < b < r.len() implies lex_lt(#[trigger] r[a].0, #[trigger] r[b].0) by {
            if b < j {
                assert(lex_lt(es[a].0, es[b].0));
            } else if b == j {
                assert(lex_lt(es[a].0, key));
            } else if a < j {
                assert(lex_lt(es[a].0, key));
                assert(lex_lt(key, es[b - 1].0));
                lemma_lex_transitive(es[a].0, key, es[b - 1].0);
            } else if a == j {
                assert(lex_lt(key, es[b - 1].0));
            } else {
                assert(lex_lt(es[a - 1].0, es[b - 1].0));
            }
        }
        lemma_items_under(r, key, j);
        assert(seq![v] =~= Seq::<Json>::empty().push(v));
        assert forall|k: Seq<char>| #[trigger] has_key(r, k) <==> (has_key(es, k) || k == key) by {
            if has_key(es, k) {
                let c = choose|c: int| 0 <= c < es.len() && (#[trigger] es[c]).0 == k;
                if c < j {
                    assert(r[c] == es[c]);
                } else {
                    assert(r[c + 1] == es[c]);
                }
            }
            if has_key(r, k) && k != key {
                let c = choose|c: int| 0 <= c < r.len() && (#[trigger] r[c]).0 == k;
                if c < j {
                    assert(r[c] == es[c]);
                } else {
                    assert(c != j);
                    assert(r[c] == es[c - 1]);
                }
            }
        }
        assert forall|k: Seq<char>| k != key implies #[trigger] items_under(r, k) == items_under(es, k) by {
            if has_key(es, k) {
                let c = choose|c: int| 0 <= c < es.len() && (#[trigger] es[c]).0 == k;
                lemma_items_under(es, k, c);
                if c < j {
                    assert(r[c] == es[c]);
                    lemma_items_under(r, k, c);
                } else {
                    assert(r[c + 1] == es[c]);
                    lemma_items_under(r, k, c + 1);
                }
            } else {
                assert(!has_key(r, k));
            }
        }
    } else {
        lemma_lex_total(key, es[j].0);
        lemma_group_into(es, key, v, j + 1);
    }
}

/// The JSON object of fields: its keys strictly increase, and under the decimal text
/// `key` stands, when some field's number reads `key`, the array of the JSON of
/// exactly those fields' values, in order.
pub proof fn law_grouped_by_number(fs: Seq<WireField>, bound: nat)
    ensures
        sorted_keys(grouped(fs, bound)),
        all_arrays(grouped(fs, bound)),
        forall|key: Seq<char>| #[trigger] has_key(grouped(fs, bound), key) <==> keyed_values(fs, key).len() > 0,
        forall|key: Seq<char>| #[trigger] items_under(grouped(fs, bound), key) == keyed_values(fs, key).map_values(
            |w: WireValue| value_json(w, bound),
        ),
    decreases fs.len(),
{
    let g = grouped(fs, bound);
    if fs.len() == 0 {
        assert forall|key: Seq<char>| #[trigger] items_under(g, key) == keyed_values(fs, key).map_values(
            |w: WireValue| value_json(w, bound),
        ) by {
            assert(keyed_values(fs, key).map_values(|w: WireValue| value_json(w, bound)) =~= seq![]);
        }
    } else {
        let front = fs.drop_last();
        let last = fs.last();
        let k0 = decimal(last.number as nat);
        let v = value_json(last.value, bound);
        law_grouped_by_number(front, bound);
        let g0 = grouped(front, bound);
        lemma_group_into(g0, k0, v, 0);
        assert(g == group_into(g0, k0, v, 0));
        assert forall|key: Seq<char>| #[trigger] has_key(g, key) <==> keyed_values(fs, key).len() > 0 by {
            assert(has_key(g, key) <==> (has_key(g0, key) || key == k0));
        }
        assert forall|key: Seq<char>| #[trigger] items_under(g, key) == keyed_values(fs, key).map_values(
            |w: WireValue| value_json(w, bound),
        ) by {
            if key == k0 {
                assert(items_under(g0, key) == keyed_values(front, key).map_values(
                    |w: WireValue| value_json(w, bound),
                ));
                assert(keyed_values(fs, key).map_values(|w: WireValue| value_json(w, bound))
                    =~= keyed_values(front, key).map_values(|w: WireValue| value_json(w, bound)).push(v));
            } else {
                assert(items_under(g, key) == items_under(g0, key));
                assert(items_under(g0, key) == keyed_values(front, key).map_values(
                    |w: WireValue| value_json(w, bound),
                ));
            }
        }
    }
}


/// The bytes that a list of values stands for: all of them concatenated in order
/// when each is length-delimited, none otherwise.
pub open spec fn all_bytes(vals: Seq<WireValue>) -> Option<Seq<u8>>
    decreases vals.len(),
{
    if vals.len() == 0 {
        Some(seq![])
    } else {
        match (all_bytes(vals.drop_last()), vals.last()) {
            (Some(a), WireValue::Bytes(b)) => Some(a + b),
            _ => None,
        }
    }
}

/// The bytes one value stands for: its bytes when it is length-delimited.
pub open spec fn value_bytes(w: WireValue) -> Option<Seq<u8>> {
    match w {
        WireValue::Bytes(b) => Some(b),
        _ => None,
    }
}

proof fn lemma_keyed_shorter(fs: Seq<WireField>, key: Seq<char>, bound: nat)
    requires
        forall|i: int| 0 <= i < fs.len() ==> value_shorter(#[trigger] fs[i].value, bound),
    ensures
        forall|k: int| 0 <= k < keyed_values(fs, key).len() ==> value_shorter(
            #[trigger] keyed_values(fs, key)[k],
            bound,
        ),
    decreases fs.len(),
{
    if fs.len() > 0 {
        let front = fs.drop_last();
        assert forall|i: int| 0 <= i < front.len() implies value_shorter(#[trigger] front[i].value, bound) by {
            assert(front[i] == fs[i]);
        }
        lemma_keyed_shorter(front, key, bound);
        assert(value_shorter(fs[fs.len() - 1].value, bound));
        let r = keyed_values(front, key);
        if decimal(fs.last().number as nat) == key {
            assert forall|k: int| 0 <= k < keyed_values(fs, key).len() implies value_shorter(
                #[trigger] keyed_values(fs, key)[k],
                bound,
            ) by {
                if k < r.len() {
                    assert(keyed_values(fs, key)[k] == r[k]);
                } else {
                    assert(keyed_values(fs, key)[k] == fs.last().value);
                }
            }
        } else {
            assert(keyed_values(fs, key) == r);
        }
    }
}

proof fn lemma_raw_bytes_items(items: Seq<JsonValue>, vals: Seq<WireValue>)
    requires
        items.len() == vals.len(),
        forall|k: int| 0 <= k < vals.len() ==> raw_bytes(#[trigger] items[k]) == value_bytes(vals[k]),
    ensures
        raw_bytes_list(items) == all_bytes(vals),
    decreases items.len(),
{
    if items.len() > 0 {
        let n = items.len() - 1;
        assert forall|k: int| 0 <= k < vals.drop_last().len() implies raw_bytes(
            #[trigger] items.drop_last()[k],
        ) == value_bytes(vals.drop_last()[k]) by {
            assert(items.drop_last()[k] == items[k]);
        }
        lemma_raw_bytes_items(items.drop_last(), vals.drop_last());
        assert(raw_bytes(items[n]) == value_bytes(vals[n]));
    }
}

/// Raw bytes through a decoded message's JSON (what `to_json` gives): under the
/// decimal text of a field number stands an array exactly when some field has that
/// number; each of its items gives back the bytes of a length-delimited occurrence
/// and nothing for a scalar one; the array gives the bytes of all occurrences
/// concatenated in order, or nothing when one of them is a scalar.
pub proof fn law_raw_bytes_of_message(fs: Seq<WireField>, v: JsonValue, n: u32)
    requires
        v@ == message_json(fs),
        forall|i: int| 0 <= i < fs.len() ==> value_shorter(#[trigger] fs[i].value, usize::MAX as nat + 1),
    ensures
        v matches JsonValue::Object(entries) && ({
            let key = decimal(n as nat);
            let vals = keyed_values(fs, key);
            &&& (entry_index(entries@, key) is None <==> vals.len() == 0)
            &&& entry_index(entries@, key) matches Some(i) ==> entries@[i].1 matches JsonValue::Array(
                items,
            ) && items@.len() == vals.len() && (forall|k: int|
                0 <= k < vals.len() ==> raw_bytes(#[trigger] items@[k]) == value_bytes(vals[k]))
                && raw_bytes(entries@[i].1) == all_bytes(vals)
        }),
{
    let bound = usize::MAX as nat + 1;
    let key = decimal(n as nat);
    let vals = keyed_values(fs, key);
    let g = grouped(fs, bound);
    law_grouped_by_number(fs, bound);
    lemma_keyed_shorter(fs, key, bound);
    match v {
        JsonValue::Object(entries) => {
            lemma_json_entries(entries@);
            let es = json_entries(entries@);
            assert(es == g);
            if has_key(g, key) {
                let c = key_index(g, key);
                assert(0 <= c < g.len() && g[c].0 == key);
                assert forall|k: int| 0 <= k < c implies (#[trigger] entries@[k]).0@ != key by {
                    assert(es[k] == (entries@[k].0@, json_of(entries@[k].1)));
                    assert(lex_lt(g[k].0, g[c].0));
                    lemma_lex_irreflexive(key);
                }
                assert(es[c] == (entries@[c].0@, json_of(entries@[c].1)));
                crate::json::lemma_entry_index(entries@, key, c);
                assert(g[c].1 is Array);
                match entries@[c].1 {
                    JsonValue::Array(items) => {
                        lemma_json_list(items@);
                        assert(items_under(g, key) == json_list(items@));
                        assert forall|k: int| 0 <= k < vals.len() implies raw_bytes(#[trigger] items@[k])
                            == value_bytes(vals[k]) by {
                            assert(json_list(items@)[k] == value_json(vals[k], bound));
                            assert(items@[k]@ == json_of(items@[k]));
                            assert(value_shorter(vals[k], bound));
                            match vals[k] {
                                WireValue::Bytes(b) => {
                                    lemma_raw_bytes_of_bytes_json(items@[k], b);
                                },
                                _ => {
                                    law_scalars_have_no_raw_bytes(items@[k], vals[k], bound);
                                },
                            }
                        }
                        lemma_raw_bytes_items(items@, vals);
                    },
                    _ => {
                        assert(false);
                    },
                }
            } else {
                assert forall|k: int| 0 <= k < entries@.len() implies (#[trigger] entries@[k]).0@
                    != key by {
                    assert(es[k] == (entries@[k].0@, json_of(entries@[k].1)));
                }
                crate::json::lemma_entry_index(entries@, key, entries@.len() as int);
            }
        },
        _ => {},
    }
}


/// A length-delimited value that decodes as a message shows it: the JSON of bytes
/// `b` has a `message` entry exactly when `b` decodes to at least one field, and
/// that entry is the JSON object of those fields.
pub proof fn law_nested_message_shown(b: Seq<u8>)
    ensures
        bytes_json(b) matches Json::Object(es) && (has_key(es, "message"@) <==> (fields_from(b, 0) matches Ok(
            fs,
        ) && fs.len() > 0)) && (forall|i: int|
            0 <= i < es.len() && (#[trigger] es[i]).0 == "message"@ ==> (fields_from(b, 0) matches Ok(fs)
                && es[i].1 == Json::Object(grouped(fs, b.len())))),
{
    reveal_strlit("message");
    reveal_strlit("bytes_base64");
    reveal_strlit("len");
    reveal_strlit("utf8");
    reveal_strlit("wire");
    assert("bytes_base64"@.len() != "message"@.len());
    assert("len"@.len() != "message"@.len());
    assert("utf8"@.len() != "message"@.len());
    assert("wire"@.len() != "message"@.len());
    let es = bytes_json(b)->Object_0;
    let base = seq![
        ("bytes_base64"@, Json::Text(base64_encoded(b))),
        ("len"@, Json::Number(JsonNumber::Unsigned(b.len() as u64))),
    ];
    let nested = match fields_from(b, 0) {
        Ok(fs) => if fs.len() > 0 {
            seq![("message"@, Json::Object(grouped(fs, b.len())))]
        } else {
            seq![]
        },
        Err(_) => seq![],
    };
    let text = if valid_utf8(b) {
        seq![("utf8"@, Json::Text(decode_utf8(b)))]
    } else {
        seq![]
    };
    let tail = text + seq![("wire"@, Json::Text("len"@))];
    assert(es == base + nested + tail);
    assert forall|i: int| 0 <= i < es.len() && (#[trigger] es[i]).0 == "message"@ implies i == 2
        && nested.len() == 1 && es[i] == nested[0] by {
        if i < 2 {
            assert(es[i] == base[i]);
        } else if i >= 2 + nested.len() {
            assert(es[i] == tail[i - 2 - nested.len()]);
            if text.len() > 0 && i - 2 - nested.len() == 0 {
                assert(tail[0] == text[0]);
            } else {
                assert(tail[i - 2 - nested.len()] == ("wire"@, Json::Text("len"@))) by {
                    if text.len() > 0 {
                        assert(i - 2 - nested.len() == 1);
                    }
                }
            }
        }
    }
    if nested.len() > 0 {
        assert(es[2] == nested[0]);
        assert(has_key(es, "message"@));
    }
}

} // verus!
