//! Reading AsciiDoc tables, preprocessing AsciiDoc sources and checking the
//! references of a parsed document.

pub mod attributes;
pub mod envelope;
pub mod error;
pub mod file_resolver;
pub mod model;
pub mod options;
pub mod preprocessor;
pub mod table;
pub mod text;
pub mod tree;
pub mod validate;
