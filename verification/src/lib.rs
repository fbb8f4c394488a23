//! A calculator for arithmetic expressions.
//!
//! An expression is split into tokens, reordered into postfix order and
//! evaluated on a stack, in binary32 arithmetic. The numbers are modelled
//! on integers, so that every step has an exact statement.

mod arith;
pub mod binary32;
pub mod calculator;
pub mod comparison;
pub mod display;
pub mod readback;
pub mod text;
pub mod whole;
mod wide;
