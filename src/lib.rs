//! A compact notation for nested named values, `name=token{name=token ...},token`:
//! a parser into an untyped tree, a canonical printer that the parser inverts, and a
//! decoder that reads such a tree against a schema.

pub mod decode;
pub mod grammar;
pub mod parser;
pub mod printer;
pub mod roundtrip;
pub mod schema;
pub mod tree;

pub use decode::decode;
pub use grammar::Expected;
pub use parser::{ParseError, parse_binding, parse_value};
pub use printer::{print_binding, print_value};
pub use schema::{DecodeError, Field, FieldValue, Schema, TypedValue, Variant, VariantValue};
pub use tree::{Binding, Value};
