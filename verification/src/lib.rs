//! Dense integer matrix multiplication: a schoolbook multiplier, Strassen's
//! divide-and-conquer scheme, and a row-partitioned multiplier.
//!
//! Entries are `i32` and all arithmetic wraps in two's complement, so every
//! multiplier is total and all of them agree on every input. Where no exact
//! result leaves the range of `i32`, the entries are the exact sums of
//! products.
//!
//! - `matrix`: row-major storage and its mathematical model;
//! - `arith`: wrapping arithmetic over the integers;
//! - `product`: the matrix product and the schoolbook multiplier;
//! - `blocks`: entry-wise sums and differences, quadrants, padding;
//! - `algebra`: laws of the inner product and of the matrix product;
//! - `strassen`: Strassen's scheme and the proof that it computes the product;
//! - `parallel`: the row-partitioned multiplier;
//! - `grid` and `text`: matrices as lists of rows and as text;
//! - `layout`: the row-major layout for a multiplication kernel.

pub mod algebra;
pub mod arith;
pub mod blocks;
pub mod grid;
pub mod layout;
pub mod matrix;
pub mod parallel;
pub mod product;
pub mod strassen;
pub mod text;
