//! A symbol table and expression front for an expression engine.
//!
//! Numbers are carried as IEEE-754 bit patterns (`u64`); the engine that
//! evaluates them is bound outside the verified library.
pub mod error;
pub mod string_value;
pub mod symbols;
pub mod expression;
