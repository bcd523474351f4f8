//! A compiler for a dense-tensor index-notation language.
//!
//! A source program is a list of named components plus a final expression.
//! Each component is a scalar rule over indexed array elements (for example
//! `ik*kj~ijk` multiplies the `(i,k)` element of the first input by the
//! `(k,j)` element of the second and stores the product at `(i,j,k)`), and
//! may carry a schedule of per-axis split factors and a loop ordering.
//! The pipeline parses source text, builds a dataflow graph, and lowers the
//! graph to a block IR of nested loops, affine indexing and allocations,
//! which a separate renderer serializes to target code.

pub mod ast;
pub mod block;
pub mod dims;
pub mod graph;
pub mod lowerer;
pub mod math;
pub mod names;
pub mod parser;
pub mod sem;
pub mod tokenizer;
