//! JSON value model, serializers and the order-preserving parser.

pub mod value;
pub mod format;
pub mod grammar;
pub mod parser;
pub mod stringified;
pub mod laws;
pub mod laws_pretty;
pub mod laws_parsed;

pub use self::value::{Json, JSONProperty, JSONValue};
pub use self::format::{JSONFormatOptions, escape_string, quote_and_escape_string, escape_python_string};
pub use self::parser::{JSONParser, JSONParseError};
pub use self::stringified::unescape_stringified_json;
