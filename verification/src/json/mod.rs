//! JSON: a value model, a parser and a serializer.
pub mod escapes;
pub mod parser;
pub mod pieces;
pub mod round_trip;
pub mod value;

pub use parser::parse;

pub use value::escape_into;
pub use value::JsonValue;
