//! A tabletop combat tracker: characters, their hit points, and the
//! initiative order in which they act.

pub mod cli;
pub mod combat;
pub mod model;
pub mod text;
