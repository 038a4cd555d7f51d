//! Stable text for snapshot tests.
//!
//! A tree of structured data is normalized, its maps sorted by key and its
//! private values redacted, and then rendered, so that the same data gives
//! the same text on every run and every machine.
//!
//! YAML is written here. JSON, CSV, RON and TOML are written by encoders
//! that the caller runs: [`serialize_content`] says which tree goes to
//! which encoder, and [`complete`] makes the snapshot text of what the
//! encoder handed back.

pub mod content;
pub mod order;
pub mod redaction;
pub mod serialization;
pub mod settings;
pub mod text;
pub mod yaml;

pub use content::Content;
pub use redaction::{Redaction, Segment, Selector};
pub use serialization::{
    complete, serialize_content, serialize_value, serialize_value_redacted, Action, Encoded,
    RonStyle, SerializationFormat, SerializeError, SnapshotLocation,
};
pub use settings::Settings;
