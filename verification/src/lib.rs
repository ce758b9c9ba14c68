//! An in-memory tabular data library: it loads delimited text into a
//! rectangular grid of typed cells, lets callers query, filter, transform
//! and summarize columns, and serializes the grid back to delimited text.
//!
//! Every cell is a [`Cell`]: null, text, boolean, 64-bit integer, or a
//! double-precision value carried as its IEEE-754 bit pattern. The grid is
//! a [`Sheet`], whose first row is the header naming the columns. Each
//! operation carries a contract over the mathematical model of the grid;
//! double-precision arithmetic runs through a software IEEE-754
//! implementation behind the narrow trusted interface of the `ieee`
//! module, and everything else is verified down to the character level.

pub mod cell;
pub mod ieee;
pub mod text;
pub mod token;
pub mod sheet;
pub mod stats;
pub mod render;

pub use cell::Cell;
pub use cell::CellView;
pub use sheet::Sheet;
pub use sheet::TableError;
