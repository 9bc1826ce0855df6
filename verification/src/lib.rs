//! Boolean expression minimization: parsing, algebraic rewriting to
//! sum-of-products form, and Quine-McCluskey reduction of the result.

pub mod assignment;
pub mod equation;
pub mod lexer;
pub mod mccluskey;
pub mod oracle;
pub mod order;
pub mod parser;
pub mod simplify;
pub mod text;
