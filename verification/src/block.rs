//! The block IR: a target-independent tree of declarations, assignments,
//! loops, early exits, function definitions and call sites, produced by the
//! lowerer and consumed by a renderer.
//!
//! Array elements of the emitted program are target floats; inside the IR
//! the only element values ever written are the identity elements of the
//! scalar operations, so allocations carry an [`InitVal`] rather than a
//! numeric literal and the renderer maps it to the target spelling.

use vstd::prelude::*;

verus! {

/// The initial element value of an allocation: the identity of the scalar
/// op that accumulates into it (`+` and the max sentinel use zero, `*`
/// uses one).
#[derive(Clone, Copy, Debug, PartialEq, Eq, Structural)]
pub enum InitVal {
    Zero,
    One,
}

#[derive(Debug)]
pub enum Expr {
    /// A contiguous row-major array of size `product(shape)`, every
    /// element set to `initial_value`.
    Alloc { initial_value: InitVal, shape: Vec<String> },
    /// An integer literal.
    Int(usize),
    /// A variable read.
    Ident(String),
    /// Like `Ident`, but a reference; tracks mutability.
    Ref(String, bool),
    /// An application of a scalar or integer operator to its inputs.
    Op { op: char, inputs: Vec<Expr> },
    /// A read of or write to a one-dimensional buffer at a linear index.
    Indexed { ident: String, index: Box<Expr> },
}

/// Types of declarations and function arguments; the flag is mutability.
#[derive(Clone, Copy, Debug, PartialEq, Eq, Structural)]
pub enum Type {
    Int(bool),
    Array(bool),
    ArrayRef(bool),
}

/// A typed function argument.
#[derive(Debug)]
pub struct Arg {
    pub type_: Type,
    /// An `Ident` in definitions, an `Ident` or `Ref` at call sites.
    pub ident: Expr,
}

#[derive(Debug)]
pub enum Statement {
    Assignment { left: Expr, right: Expr },
    Declaration { ident: String, value: Expr, type_: Type },
    /// Abandon the current iteration of the enclosing loop when
    /// `index >= bound`: the partial-tile guard.
    Skip { index: String, bound: String },
    /// `for index in 0..bound`; `parallel` permits unordered iteration.
    Loop { index: String, bound: Expr, body: Block, parallel: bool },
    Return { value: Expr },
    Function { ident: String, args: Vec<Arg>, body: Block },
    Call { ident: String, args: Vec<Arg> },
}

/// A sequence of statements.
#[derive(Debug)]
pub struct Block {
    pub statements: Vec<Statement>,
}

impl Block {
    /// A block with no statements.
    pub fn empty() -> (r: Block)
        ensures
            r.statements@.len() == 0,
    {
        Block { statements: Vec::new() }
    }
}

} // verus!
