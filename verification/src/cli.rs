//! Command-line arguments, as plain values.
use vstd::prelude::*;

verus! {

/// A distributed, replicated key-value cache built on a Raft consensus core.
#[derive(Debug, Clone, Copy, PartialEq, Eq, Structural)]
pub struct Cli {
    pub command: Command,
}

/// The subcommands.
#[derive(Debug, Clone, Copy, PartialEq, Eq, Structural)]
pub enum Command {
    /// Run a scripted 3-node cluster scenario: elect, replicate, partition, heal.
    Demo,
}

} // verus!
