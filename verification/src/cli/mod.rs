//! The interactive command line: reading commands and deciding what each one does.

pub mod completer;
pub mod display;
pub mod repl;
