//! A terse notation for timed programs, and the Rust code it stands for.
pub mod agent;
pub mod expand;
pub mod nested;
pub mod parse;
pub mod sense;
pub mod token;
