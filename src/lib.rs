//! A small numerical kernel: dense matrices over a generic element type,
//! with determinant, inversion, transposition and sums, and a tokenizer for
//! the variable-binding language of the interactive front end.

pub mod arith;
pub mod grid;
pub mod square;
pub mod rect;
pub mod parsers;

pub use rect::Matrix;
pub use square::{MatrixError, SquareMatrix};
