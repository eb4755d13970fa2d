//! The replicated commands of the key-value store.
use vstd::prelude::*;

verus! {

/// A state-changing operation on the key-value store.
#[derive(Debug, Clone, PartialEq, Eq)]
pub enum Command {
    Put { key: String, value: String },
    Delete { key: String },
}

/// The mathematical content of a [`Command`].
pub enum CommandView {
    Put { key: Seq<char>, value: Seq<char> },
    Delete { key: Seq<char> },
}

impl View for Command {
    type V = CommandView;

    open spec fn view(&self) -> CommandView {
        match self {
            Command::Put { key, value } => CommandView::Put { key: key@, value: value@ },
            Command::Delete { key } => CommandView::Delete { key: key@ },
        }
    }
}

} // verus!
