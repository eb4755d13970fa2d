//! Inputs to and outputs from the consensus state machine.
use vstd::prelude::*;

use crate::log::copy_bytes;
use crate::message::{Message, MessageView};
use crate::types::{LogIndex, NodeId};

verus! {

/// An input event the node reacts to.
#[derive(Debug)]
pub enum Event {
    /// A logical clock tick (drives election and heartbeat timeouts).
    Tick,
    /// An incoming message from another node.
    Message { from: NodeId, message: Message },
    /// A client proposing a command (only meaningful on the leader).
    Propose { command: Vec<u8> },
}

/// A side effect the node asks its environment to perform.
#[derive(Debug, PartialEq, Eq)]
pub enum Action {
    /// Send a message to another node.
    Send { to: NodeId, message: Message },
    /// Apply a committed command to the application state machine.
    Apply { index: LogIndex, command: Vec<u8> },
}

/// The mathematical content of an [`Event`].
pub enum EventView {
    Tick,
    Message { from: NodeId, message: MessageView },
    Propose { command: Seq<u8> },
}

/// The mathematical content of an [`Action`].
pub enum ActionView {
    Send { to: NodeId, message: MessageView },
    Apply { index: LogIndex, command: Seq<u8> },
}

impl View for Event {
    type V = EventView;

    open spec fn view(&self) -> EventView {
        match self {
            Event::Tick => EventView::Tick,
            Event::Message { from, message } => EventView::Message { from: *from, message: message@ },
            Event::Propose { command } => EventView::Propose { command: command@ },
        }
    }
}

impl View for Action {
    type V = ActionView;

    open spec fn view(&self) -> ActionView {
        match self {
            Action::Send { to, message } => ActionView::Send { to: *to, message: message@ },
            Action::Apply { index, command } => ActionView::Apply { index: *index, command: command@ },
        }
    }
}

/// The view of a sequence of actions.
pub open spec fn actions_view(actions: Seq<Action>) -> Seq<ActionView> {
    actions.map_values(|a: Action| a@)
}

impl Clone for Event {
    fn clone(&self) -> (out: Self)
        ensures
            out@ == self@,
    {
        match self {
            Event::Tick => Event::Tick,
            Event::Message { from, message } => Event::Message { from: *from, message: message.clone() },
            Event::Propose { command } => Event::Propose { command: copy_bytes(command) },
        }
    }
}

impl Clone for Action {
    fn clone(&self) -> (out: Self)
        ensures
            out@ == self@,
    {
        match self {
            Action::Send { to, message } => Action::Send { to: *to, message: message.clone() },
            Action::Apply { index, command } => Action::Apply { index: *index, command: copy_bytes(command) },
        }
    }
}

} // verus!
