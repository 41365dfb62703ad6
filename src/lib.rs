//! A tagged value model for the results of an embedded script engine.
//!
//! `number` gives the double-precision operations on bit patterns, `value`
//! the value type with its equality and hash input, `convert` the
//! conversion of what the engine reports of a script value, `outcome` the
//! classification of how an evaluation ended, and `laws` what holds between
//! equality and hashing.
pub mod convert;
pub mod laws;
pub mod number;
pub mod order;
pub mod outcome;
pub mod value;

pub use convert::ScriptValue;
pub use outcome::{exception, outcome, Error};
pub use value::Value;
