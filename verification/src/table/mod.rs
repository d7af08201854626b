//! Reading the body of a table into rows of cells.

pub mod cell;
pub mod csv_rows;
pub mod escape;
pub mod grid;
pub mod laws;
pub mod limits;
pub mod moved;
pub mod places;
pub mod reader;
pub mod relocate;
pub mod row;
pub mod rows;
pub mod separator;
pub mod shift;
pub mod specifier;
