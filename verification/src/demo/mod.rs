//! Voices that play together.
pub mod act;
pub mod args;
pub mod cast;
pub mod chords;
pub mod conductor;
pub mod energy;
pub mod messages;
pub mod pattern;
pub mod phrases;
pub mod pick;
pub mod runs;
pub mod shared;
pub mod solo;
pub mod terse;
pub mod values;
pub mod vote;
