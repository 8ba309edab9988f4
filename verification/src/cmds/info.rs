//! `INFO` and its sections.

use vstd::prelude::*;

verus! {

/// A section of `INFO`.
#[derive(Debug, Clone, Copy, PartialEq)]
pub enum InfoSubCommand {
    Replication,
}

/// `INFO [section]`.
#[derive(Debug, PartialEq)]
pub struct Info {
    pub sub_command: Option<InfoSubCommand>,
}

} // verus!
