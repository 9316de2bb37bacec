//! Protobuf tooling: text sorting and formatting of `.proto` sources, linting,
//! decoding of raw protobuf wire data, a small JSONPath-like selector, and
//! completion candidates drawn from a protobuf schema.

pub mod text;
pub mod json;
pub mod path;
pub mod wire;
pub mod encoding;
pub mod proto_sort;
pub mod syntax;
pub mod proto_fmt;
pub mod lint;
pub mod config;
pub mod diff;
pub mod sorting;
pub mod schema;
pub mod output;
pub mod commands;
