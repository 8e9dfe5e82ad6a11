//! Reading the values of command-line arguments.

pub mod mapping_value_parser;

pub use mapping_value_parser::{MappingValueParser, ValueError};
