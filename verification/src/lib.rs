//! Constraint-generation core for a typed arithmetic-circuit language.
//!
//! Given two already-evaluated operand values and a binary arithmetic
//! operator, the library wires a new value into a growing rank-1 constraint
//! system, resolving polymorphic numeric literals against the sibling
//! operand's type and reporting type mismatches with their source span.

pub mod arith;
pub mod cs;
pub mod enforce;
pub mod error;
pub mod gadgets;
pub mod laws;
pub mod resolve;
pub mod span;
pub mod value;
