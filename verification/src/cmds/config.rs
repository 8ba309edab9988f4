//! `CONFIG` and its subcommands.

use vstd::prelude::*;

verus! {

/// A subcommand of `CONFIG`.
#[derive(Debug, PartialEq)]
pub enum SubCommand {
    /// `CONFIG GET name`.
    Get(Vec<u8>),
}

/// `CONFIG subcommand ...`.
#[derive(Debug, PartialEq)]
pub struct Config {
    pub sub_command: SubCommand,
}

} // verus!
