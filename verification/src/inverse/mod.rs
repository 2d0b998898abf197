//! How well time and beats undo one another, for tempos that change.
//!
//! Errors are counted in steps of 2^-44: a second, a beat and a tempo of one
//! are each 2^44 of them.
pub mod area;
pub mod back;
pub mod built;
pub mod changes;
pub mod course;
pub mod forth;
pub mod rising;
pub mod scale;
pub mod segment;
