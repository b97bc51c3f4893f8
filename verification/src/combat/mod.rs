//! Combat: who acts when.

pub mod initiative;
pub mod roster;
pub mod session;
