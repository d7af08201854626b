//! What is done to a source before it is parsed: decoding, line endings,
//! conditionals, and the contents of other files.

pub mod attribute;
pub mod conditional;
pub mod decode;
pub mod laws;
pub mod normalize;
pub mod process;
pub mod shifts;
