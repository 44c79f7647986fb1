//! Strict, single-pass parsing of JSON text into a tagged value tree.

pub mod error;
pub mod grammar;
pub mod parser;
pub mod reader;
pub mod source;
pub mod value;

pub use error::{Expected, JsonError};
pub use parser::{parse, parse_str};
pub use reader::JsonReader;
pub use value::{Json, JsonObject, JsonValue};
