//! A replicated key-value cache built on a pure, event-driven Raft consensus
//! core, with a deterministic simulation harness that checks Raft's safety
//! properties.
//!
//! - `node` is the consensus state machine, `RaftNode::step(event) -> actions`,
//!   proved to follow the model in `node_model`; `node_laws` states what every
//!   step keeps.
//! - `store` is the replicated key-value state machine.
//! - `network` and `cluster` are the deterministic simulation. `cluster_model`
//!   proves Election Safety for every cluster it can reach; `history` and the
//!   `safety` modules prove State Machine Safety, Log Matching and Leader
//!   Completeness from a proof-only history of each term's leader log, the
//!   votes that elected it and what each node acknowledged.
use vstd::prelude::*;

pub mod applied;
pub mod assoc;
pub mod cli;
pub mod cluster;
pub mod cluster_model;
pub mod command;
pub mod error;
pub mod event;
pub mod history;
pub mod history_frame;
pub mod history_step;
pub mod keys;
pub mod log;
pub mod message;
pub mod network;
pub mod node;
pub mod node_laws;
pub mod node_model;
pub mod safety;
pub mod safety_append;
pub mod safety_commit;
pub mod safety_elect;
pub mod safety_frame;
pub mod safety_leader;
pub mod safety_own;
pub mod safety_tick;
pub mod safety_votes;
pub mod store;
pub mod text;
pub mod types;

pub use cluster::Cluster;
pub use command::Command;
pub use error::CoreError;
pub use event::{Action, Event};
pub use log::{Log, LogEntry};
pub use message::{AppendEntries, AppendEntriesReply, Message, RequestVote, RequestVoteReply};
pub use network::VirtualNetwork;
pub use node::{Config, RaftNode};
pub use store::KvStore;
pub use types::{LogIndex, NodeId, Role, Term};

verus! {
} // verus!
