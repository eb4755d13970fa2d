//! Raft RPCs and their replies.
use vstd::prelude::*;

use crate::log::{copy_entries, entries_view, LogEntry, LogEntryView};
use crate::types::{LogIndex, NodeId, Term};

verus! {

#[derive(Debug, Clone, Copy, PartialEq, Eq, Structural)]
pub struct RequestVote {
    pub term: Term,
    pub candidate_id: NodeId,
    pub last_log_index: LogIndex,
    pub last_log_term: Term,
}

#[derive(Debug, Clone, Copy, PartialEq, Eq, Structural)]
pub struct RequestVoteReply {
    pub term: Term,
    pub vote_granted: bool,
}

#[derive(Debug, PartialEq, Eq)]
pub struct AppendEntries {
    pub term: Term,
    pub leader_id: NodeId,
    pub prev_log_index: LogIndex,
    pub prev_log_term: Term,
    pub entries: Vec<LogEntry>,
    pub leader_commit: LogIndex,
}

#[derive(Debug, Clone, Copy, PartialEq, Eq, Structural)]
pub struct AppendEntriesReply {
    pub term: Term,
    pub success: bool,
    /// On success, the highest log index the follower now matches.
    pub match_index: LogIndex,
}

/// A Raft message: one of the four RPC payloads.
#[derive(Debug, PartialEq, Eq)]
pub enum Message {
    RequestVote(RequestVote),
    RequestVoteReply(RequestVoteReply),
    AppendEntries(AppendEntries),
    AppendEntriesReply(AppendEntriesReply),
}

/// The mathematical content of an [`AppendEntries`] request.
pub struct AppendEntriesView {
    pub term: Term,
    pub leader_id: NodeId,
    pub prev_log_index: LogIndex,
    pub prev_log_term: Term,
    pub entries: Seq<LogEntryView>,
    pub leader_commit: LogIndex,
}

/// The mathematical content of a [`Message`].
pub enum MessageView {
    RequestVote(RequestVote),
    RequestVoteReply(RequestVoteReply),
    AppendEntries(AppendEntriesView),
    AppendEntriesReply(AppendEntriesReply),
}

impl MessageView {
    /// The term a message carries.
    pub open spec fn term(self) -> Term {
        match self {
            MessageView::RequestVote(m) => m.term,
            MessageView::RequestVoteReply(m) => m.term,
            MessageView::AppendEntries(m) => m.term,
            MessageView::AppendEntriesReply(m) => m.term,
        }
    }
}

impl View for AppendEntries {
    type V = AppendEntriesView;

    open spec fn view(&self) -> AppendEntriesView {
        AppendEntriesView {
            term: self.term,
            leader_id: self.leader_id,
            prev_log_index: self.prev_log_index,
            prev_log_term: self.prev_log_term,
            entries: entries_view(self.entries@),
            leader_commit: self.leader_commit,
        }
    }
}

impl View for Message {
    type V = MessageView;

    open spec fn view(&self) -> MessageView {
        match self {
            Message::RequestVote(m) => MessageView::RequestVote(*m),
            Message::RequestVoteReply(m) => MessageView::RequestVoteReply(*m),
            Message::AppendEntries(m) => MessageView::AppendEntries(m@),
            Message::AppendEntriesReply(m) => MessageView::AppendEntriesReply(*m),
        }
    }
}

impl Clone for AppendEntries {
    fn clone(&self) -> (out: Self)
        ensures
            out@ == self@,
    {
        AppendEntries {
            term: self.term,
            leader_id: self.leader_id,
            prev_log_index: self.prev_log_index,
            prev_log_term: self.prev_log_term,
            entries: copy_entries(self.entries.as_slice()),
            leader_commit: self.leader_commit,
        }
    }
}

impl Clone for Message {
    fn clone(&self) -> (out: Self)
        ensures
            out@ == self@,
    {
        match self {
            Message::RequestVote(m) => Message::RequestVote(*m),
            Message::RequestVoteReply(m) => Message::RequestVoteReply(*m),
            Message::AppendEntries(m) => Message::AppendEntries(m.clone()),
            Message::AppendEntriesReply(m) => Message::AppendEntriesReply(*m),
        }
    }
}

impl Message {
    /// The term carried by this message (used for the universal step-down rule).
    pub fn term(&self) -> (t: Term)
        ensures
            t == self@.term(),
    {
        match self {
            Message::RequestVote(m) => m.term,
            Message::RequestVoteReply(m) => m.term,
            Message::AppendEntries(m) => m.term,
            Message::AppendEntriesReply(m) => m.term,
        }
    }
}

} // verus!
