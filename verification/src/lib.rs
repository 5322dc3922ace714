pub mod lexical;
pub mod model;
pub mod number;
pub mod parse;
pub mod render;
pub mod round_trip;
pub mod source;
pub mod syntax;
pub mod text;
pub mod types;
pub mod validity;
pub mod whitespace;

pub use crate::number::Number;
pub use crate::parse::{deserialize, serialize};
pub use crate::source::ByteSource;
pub use crate::types::{JSONError, Object, Value};
