//! Variables for JSON documents: declare named values once and reference them
//! elsewhere in a document through placeholders such as `${NAME}` or
//! `${PERSON.countries.0}`.
//!
//! A [`Variables`] store holds the declared values, the placeholder pattern and
//! a [`VariableTree`] that indexes every nested value by its dotted path.
//! [`Variables::replace`] rewrites the placeholders of a text body with the
//! values they name, keeping each value's JSON type where a placeholder is a
//! whole string value, and interpolating it where the placeholder stands inside
//! a longer string.

pub mod error;
pub mod value;
pub mod text;
pub mod tree;
pub mod pattern;
pub mod variables;
pub mod document;

pub use error::Error;
pub use value::JsonValue;
pub use tree::{Node, VariableTree};
pub use pattern::{default_pattern, deserialize_regex, serialize_regex, Pattern, DEFAULT_PATTERN};
pub use variables::{count_nodes, from_json, Variables, VariablesDeserializer, PATTERN_KEY};
pub use document::{resolve_document, to_snake_case, DocumentOptions};
