//! The characters that take part in a combat.

pub mod character;
