//! Solving single-variable polynomial equations such as
//! `5 * X^0 + 4 * X^1 - 9.3 * X^2 = 1 * X^0`: the text is split into tokens,
//! parsed into an expression tree of `lhs - rhs`, turned into terms, reduced
//! by combining like terms, and solved by its degree.
use vstd::prelude::*;

pub mod number;
pub mod tokenizer;
pub mod node;
pub mod parser;
pub mod polynomial;
pub mod reduction;
pub mod solver;
pub mod laws;
pub mod render;

verus! {

} // verus!
