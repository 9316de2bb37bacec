//! Writing a selected value in one of the binary-friendly output formats.
use vstd::prelude::*;

use crate::encoding::{base64_encode, base64_encoded, hex_encode, hex_encoded};
use crate::json::{entry_index, object_get, JsonValue};
use crate::wire::{raw_bytes, raw_bytes_from_json};

verus! {

/// How a selected value is written, besides JSON.
#[derive(Debug, Clone, Copy, PartialEq, Eq, Structural)]
pub enum ValueFormat {
    /// The raw bytes.
    Raw,
    /// The bytes as lowercase hexadecimal, on one line.
    Hex,
    /// The bytes as standard Base64, on one line.
    Base64,
}

/// What to write: bytes as they are, or a line of text.
#[derive(Debug, PartialEq, Eq)]
pub enum Rendered {
    Bytes(Vec<u8>),
    Line(String),
}

/// The meaning of a [`Rendered`].
pub enum RenderedView {
    Bytes(Seq<u8>),
    Line(Seq<char>),
}

impl View for Rendered {
    type V = RenderedView;

    open spec fn view(&self) -> RenderedView {
        match self {
            Rendered::Bytes(b) => RenderedView::Bytes(b@),
            Rendered::Line(t) => RenderedView::Line(t@),
        }
    }
}

/// The `bytes_base64` text of an object, if it has one.
pub open spec fn base64_text(v: JsonValue) -> Option<Seq<char>> {
    match v {
        JsonValue::Object(entries) => match entry_index(entries@, "bytes_base64"@) {
            Some(i) => match entries@[i].1 {
                JsonValue::Text(t) => Some(t@),
                _ => None,
            },
            None => None,
        },
        _ => None,
    }
}

/// A value written as `format`: the raw bytes, their hex digits, or for Base64
/// the object's own `bytes_base64` text when present and else the encoded
/// bytes; `None` where the value stands for no bytes.
pub open spec fn rendered_value(v: JsonValue, format: ValueFormat) -> Option<RenderedView> {
    match format {
        ValueFormat::Base64 => match base64_text(v) {
            Some(t) => Some(RenderedView::Line(t)),
            None => match raw_bytes(v) {
                Some(b) => Some(RenderedView::Line(base64_encoded(b))),
                None => None,
            },
        },
        _ => match raw_bytes(v) {
            None => None,
            Some(b) => Some(
                if format == ValueFormat::Raw {
                    RenderedView::Bytes(b)
                } else {
                    RenderedView::Line(hex_encoded(b))
                },
            ),
        },
    }
}

/// Writes a selected value as `format` (see [`rendered_value`]); `None` when it
/// is not the JSON of raw length-delimited data.
pub fn render_value(value: &JsonValue, format: ValueFormat) -> (r: Option<Rendered>)
    ensures
        match rendered_value(*value, format) {
            Some(x) => r matches Some(y) && y@ == x,
            None => r is None,
        },
{
    if format == ValueFormat::Base64 {
        if let JsonValue::Object(entries) = value {
            match object_get(entries, "bytes_base64") {
                Some(JsonValue::Text(t)) => {
                    return Some(Rendered::Line(t.clone()));
                },
                _ => {},
            }
        }
    }
    let bytes = raw_bytes_from_json(value)?;
    match format {
        ValueFormat::Raw => Some(Rendered::Bytes(bytes)),
        ValueFormat::Hex => Some(Rendered::Line(hex_encode(bytes.as_slice()))),
        ValueFormat::Base64 => Some(Rendered::Line(base64_encode(bytes.as_slice()))),
    }
}

} // verus!
