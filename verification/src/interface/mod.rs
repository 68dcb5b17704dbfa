//! What the commands compute, apart from reading input and printing.
pub mod cli;
pub mod command_laws;
pub mod explain;
pub mod explain_laws;
pub mod inspect;
pub mod inspect_laws;
pub mod laws;
pub mod main_command;
pub mod memory;
pub mod number;
pub mod number_laws;
pub mod plan_laws;
