//! Railyard runs a set of commands, some of them after others, and shows what
//! became of each. A command that fails does not stop the ones that wait for it.
//!
//! This crate holds the decisions: which commands a `justfile` or a railyard
//! file asks for, which command may start when, when waiting is given up, and
//! what is shown at the end. Processes, terminals and files belong to the
//! program around it.

pub mod arguments;
pub mod command;
pub mod commands;
pub mod dependencies;
pub mod error;
pub mod justfile;
pub mod lifecycle;
pub mod ordered;
pub mod plans;
pub mod railfile;
pub mod style;
pub mod text;
pub mod waits;
pub mod watchdog;
pub mod yard;
