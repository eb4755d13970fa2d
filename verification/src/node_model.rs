//! The mathematical model of a Raft node: its state as plain values and the
//! transition that one event makes, written as spec functions. The executable
//! node in `node` is proved to follow this model exactly.
use vstd::prelude::*;

use crate::event::{ActionView, EventView};
use crate::log::{
    entry_at_of, last_index_of, last_term_of, suffix_from, term_at_of, truncated_from,
    LogEntryView,
};
use crate::message::{
    AppendEntriesReply, AppendEntriesView, MessageView, RequestVote, RequestVoteReply,
};
use crate::types::{LogIndex, NodeId, Role, Term};

verus! {

/// The whole state of one node, as plain values.
pub struct NodeView {
    pub id: NodeId,
    pub peers: Seq<NodeId>,
    pub election_timeout: u32,
    pub heartbeat_timeout: u32,
    pub current_term: Term,
    pub voted_for: Option<NodeId>,
    pub log: Seq<LogEntryView>,
    pub role: Role,
    pub commit_index: LogIndex,
    pub last_applied: LogIndex,
    pub leader_id: Option<NodeId>,
    pub election_elapsed: u32,
    pub heartbeat_elapsed: u32,
    pub votes_received: Set<NodeId>,
    pub next_index: Map<NodeId, LogIndex>,
    pub match_index: Map<NodeId, LogIndex>,
}

/// What every reachable node state satisfies.
pub open spec fn node_wf(s: NodeView) -> bool {
    &&& s.election_elapsed == 0 || s.election_elapsed < s.election_timeout
    &&& s.heartbeat_elapsed == 0 || s.heartbeat_elapsed < s.heartbeat_timeout
    &&& s.last_applied == s.commit_index
    &&& s.peers.len() < usize::MAX
    &&& s.votes_received.finite()
    &&& s.role != Role::Follower ==> s.voted_for == Some(s.id)
}

/// The number of votes constituting a majority of the cluster.
pub open spec fn quorum_of(s: NodeView) -> nat {
    ((s.peers.len() + 1) / 2 + 1) as nat
}

/// `log`'s last index can still be followed by another.
pub open spec fn can_extend(s: NodeView) -> bool {
    last_index_of(s.log) < u64::MAX
}

/// The AppendEntries request the leader `s` sends to `to`.
pub open spec fn append_entries_for(s: NodeView, to: NodeId) -> MessageView {
    let next: u64 = if s.next_index.contains_key(to) {
        s.next_index[to]
    } else {
        (last_index_of(s.log) + 1) as u64
    };
    let prev: u64 = if next == 0 { 0 } else { (next - 1) as u64 };
    let prev_term: u64 = match term_at_of(s.log, prev) {
        Some(t) => t,
        None => 0,
    };
    MessageView::AppendEntries(
        AppendEntriesView {
            term: s.current_term,
            leader_id: s.id,
            prev_log_index: prev,
            prev_log_term: prev_term,
            entries: suffix_from(s.log, next),
            leader_commit: s.commit_index,
        },
    )
}

/// One AppendEntries request to every peer, in peer order.
pub open spec fn broadcast_of(s: NodeView) -> Seq<ActionView> {
    Seq::new(
        s.peers.len(),
        |k: int| ActionView::Send { to: s.peers[k], message: append_entries_for(s, s.peers[k]) },
    )
}

/// One RequestVote for the current term to every peer, in peer order.
pub open spec fn vote_requests_of(s: NodeView) -> Seq<ActionView> {
    Seq::new(
        s.peers.len(),
        |k: int|
            ActionView::Send {
                to: s.peers[k],
                message: MessageView::RequestVote(
                    RequestVote {
                        term: s.current_term,
                        candidate_id: s.id,
                        last_log_index: last_index_of(s.log),
                        last_log_term: last_term_of(s.log),
                    },
                ),
            },
    )
}

/// The Apply actions for the positions `lo + 1 ..= hi` of `log`, in order,
/// skipping positions the log does not hold.
pub open spec fn apply_range(log: Seq<LogEntryView>, lo: int, hi: int) -> Seq<ActionView>
    decreases hi - lo,
{
    if hi <= lo {
        Seq::empty()
    } else {
        apply_range(log, lo, hi - 1) + match entry_at_of(log, hi as u64) {
            Some(e) => seq![ActionView::Apply { index: e.index, command: e.command }],
            None => Seq::empty(),
        }
    }
}

/// Applies every committed entry not applied yet.
pub open spec fn apply_committed_of(s: NodeView) -> (NodeView, Seq<ActionView>) {
    if s.last_applied < s.commit_index {
        (
            NodeView { last_applied: s.commit_index, ..s },
            apply_range(s.log, s.last_applied as int, s.commit_index as int),
        )
    } else {
        (s, Seq::empty())
    }
}

/// The index a leader records for `p`, 0 when it records none.
pub open spec fn match_of(s: NodeView, p: NodeId) -> LogIndex {
    if s.match_index.contains_key(p) { s.match_index[p] } else { 0 }
}

/// How many entries of `peers` are known to hold index `n`.
pub open spec fn peers_holding(s: NodeView, peers: Seq<NodeId>, n: LogIndex) -> nat
    decreases peers.len(),
{
    if peers.len() == 0 {
        0
    } else {
        peers_holding(s, peers.drop_last(), n) + if match_of(s, peers.last()) >= n {
            1nat
        } else {
            0nat
        }
    }
}

/// The leader may commit index `n`: a quorum holds it (the leader counts
/// itself) and it was written in the leader's current term.
pub open spec fn committable(s: NodeView, n: LogIndex) -> bool {
    &&& 1 + peers_holding(s, s.peers, n) >= quorum_of(s)
    &&& term_at_of(s.log, n) == Some(s.current_term)
}

/// The highest index `<= n` above the commit index that may be committed,
/// or the commit index when there is none.
pub open spec fn highest_committable(s: NodeView, n: LogIndex) -> LogIndex
    decreases n,
{
    if n <= s.commit_index {
        s.commit_index
    } else if committable(s, n) {
        n
    } else {
        highest_committable(s, (n - 1) as u64)
    }
}

/// Advances the commit index as far as the current-term commit rule allows,
/// applying what becomes committed.
pub open spec fn advance_commit_of(s: NodeView) -> (NodeView, Seq<ActionView>) {
    let new_commit = highest_committable(s, last_index_of(s.log));
    if new_commit > s.commit_index {
        apply_committed_of(NodeView { commit_index: new_commit, ..s })
    } else {
        (s, Seq::empty())
    }
}

/// Takes leadership: every peer's next index is just past the log, its match
/// index 0, and a round of AppendEntries goes out.
pub open spec fn become_leader_of(s: NodeView) -> (NodeView, Seq<ActionView>) {
    let next: u64 = (last_index_of(s.log) + 1) as u64;
    let s1 = NodeView {
        role: Role::Leader,
        leader_id: Some(s.id),
        next_index: Map::new(|p: NodeId| s.peers.contains(p), |p: NodeId| next),
        match_index: Map::new(|p: NodeId| s.peers.contains(p), |p: NodeId| 0u64),
        heartbeat_elapsed: 0,
        ..s
    };
    (s1, broadcast_of(s1))
}

/// Starts an election for the next term, voting for itself; a node without
/// peers wins it at once.
pub open spec fn become_candidate_of(s: NodeView) -> (NodeView, Seq<ActionView>) {
    let s1 = NodeView {
        current_term: (s.current_term + 1) as u64,
        role: Role::Candidate,
        voted_for: Some(s.id),
        votes_received: Set::empty().insert(s.id),
        election_elapsed: 0,
        leader_id: None,
        ..s
    };
    if s.peers.len() == 0 {
        become_leader_of(s1)
    } else {
        (s1, vote_requests_of(s1))
    }
}

/// A logical clock tick.
pub open spec fn on_tick_of(s: NodeView) -> (NodeView, Seq<ActionView>) {
    if s.role == Role::Leader {
        let hb: u32 = (s.heartbeat_elapsed + 1) as u32;
        if hb >= s.heartbeat_timeout {
            let s1 = NodeView { heartbeat_elapsed: 0, ..s };
            (s1, broadcast_of(s1))
        } else {
            (NodeView { heartbeat_elapsed: hb, ..s }, Seq::empty())
        }
    } else {
        let ee: u32 = (s.election_elapsed + 1) as u32;
        if ee >= s.election_timeout {
            become_candidate_of(NodeView { election_elapsed: ee, ..s })
        } else {
            (NodeView { election_elapsed: ee, ..s }, Seq::empty())
        }
    }
}

/// A client proposal: a leader appends it to its log and replicates it.
pub open spec fn on_propose_of(s: NodeView, command: Seq<u8>) -> (NodeView, Seq<ActionView>) {
    if s.role != Role::Leader {
        (s, Seq::empty())
    } else {
        let entry = LogEntryView {
            term: s.current_term,
            index: (last_index_of(s.log) + 1) as u64,
            command,
        };
        let s1 = NodeView { log: s.log.push(entry), ..s };
        if s.peers.len() == 0 {
            advance_commit_of(s1)
        } else {
            (s1, broadcast_of(s1))
        }
    }
}

/// The election restriction: a candidate's log is at least as up-to-date as
/// ours (higher last term, or equal last term and no shorter).
pub open spec fn log_up_to_date(s: NodeView, cand_term: Term, cand_index: LogIndex) -> bool {
    cand_term > last_term_of(s.log) || (cand_term == last_term_of(s.log) && cand_index
        >= last_index_of(s.log))
}

/// Whether `s` grants the vote that `req` asks for.
pub open spec fn grants_vote(s: NodeView, req: RequestVote) -> bool {
    &&& req.term == s.current_term
    &&& (s.voted_for is None || s.voted_for == Some(req.candidate_id))
    &&& log_up_to_date(s, req.last_log_term, req.last_log_index)
}

/// A vote request: grant or deny it, and answer the sender.
pub open spec fn on_request_vote_of(s: NodeView, from: NodeId, req: RequestVote) -> (
    NodeView,
    Seq<ActionView>,
) {
    let grant = grants_vote(s, req);
    let s1 = if grant {
        NodeView { voted_for: Some(req.candidate_id), election_elapsed: 0, ..s }
    } else {
        s
    };
    let reply = ActionView::Send {
        to: from,
        message: MessageView::RequestVoteReply(
            RequestVoteReply { term: s.current_term, vote_granted: grant },
        ),
    };
    (s1, seq![reply])
}

/// A vote reply: a candidate counts granted votes and wins on a quorum.
pub open spec fn on_request_vote_reply_of(s: NodeView, from: NodeId, reply: RequestVoteReply) -> (
    NodeView,
    Seq<ActionView>,
) {
    if s.role != Role::Candidate || reply.term != s.current_term || !reply.vote_granted {
        (s, Seq::empty())
    } else {
        let s1 = NodeView { votes_received: s.votes_received.insert(from), ..s };
        if s1.votes_received.len() >= quorum_of(s1) {
            become_leader_of(s1)
        } else {
            (s1, Seq::empty())
        }
    }
}

/// The reply to an AppendEntries request.
pub open spec fn append_reply_of(s: NodeView, to: NodeId, success: bool, match_index: LogIndex) -> ActionView {
    ActionView::Send {
        to,
        message: MessageView::AppendEntriesReply(
            AppendEntriesReply { term: s.current_term, success, match_index },
        ),
    }
}

/// Merges one received entry into `log`: kept if the log already holds it
/// with the same term, else written at its index after dropping any
/// conflicting suffix, else appended.
pub open spec fn merge_entry(log: Seq<LogEntryView>, e: LogEntryView) -> Seq<LogEntryView> {
    match entry_at_of(log, e.index) {
        Some(existing) => if existing.term == e.term {
            log
        } else {
            truncated_from(log, e.index).push(e)
        },
        None => log.push(e),
    }
}

/// Merges the received entries into `log` one after the other.
pub open spec fn merge_entries(log: Seq<LogEntryView>, entries: Seq<LogEntryView>) -> Seq<LogEntryView>
    decreases entries.len(),
{
    if entries.len() == 0 {
        log
    } else {
        merge_entries(merge_entry(log, entries[0]), entries.drop_first())
    }
}

/// Whether `s` holds `prev_log_index` at `prev_log_term` (the log-matching check).
pub open spec fn prev_matches(s: NodeView, ae: AppendEntriesView) -> bool {
    term_at_of(s.log, ae.prev_log_index) == Some(ae.prev_log_term)
}

/// An AppendEntries request: reject a stale leader; otherwise follow it,
/// check log matching, merge its entries, advance the commit index and ack.
pub open spec fn on_append_entries_of(s: NodeView, ae: AppendEntriesView) -> (NodeView, Seq<ActionView>) {
    if ae.term < s.current_term {
        (s, seq![append_reply_of(s, ae.leader_id, false, 0)])
    } else {
        let s1 = NodeView {
            role: Role::Follower,
            leader_id: Some(ae.leader_id),
            election_elapsed: 0,
            ..s
        };
        if !prev_matches(s1, ae) {
            (s1, seq![append_reply_of(s1, ae.leader_id, false, 0)])
        } else {
            let s2 = NodeView { log: merge_entries(s1.log, ae.entries), ..s1 };
            let match_index: u64 = (ae.prev_log_index + ae.entries.len()) as u64;
            let new_commit = if ae.leader_commit < match_index {
                ae.leader_commit
            } else {
                match_index
            };
            let new_commit = if new_commit < last_index_of(s2.log) {
                new_commit
            } else {
                last_index_of(s2.log)
            };
            let (s3, applied) = if ae.leader_commit > s2.commit_index && new_commit
                > s2.commit_index {
                apply_committed_of(NodeView { commit_index: new_commit, ..s2 })
            } else {
                (s2, Seq::empty())
            };
            (s3, applied.push(append_reply_of(s3, ae.leader_id, true, match_index)))
        }
    }
}

/// An AppendEntries reply: on success record the follower's progress and
/// try to commit; on failure back off its next index and retry.
pub open spec fn on_append_entries_reply_of(s: NodeView, from: NodeId, reply: AppendEntriesReply) -> (
    NodeView,
    Seq<ActionView>,
) {
    if s.role != Role::Leader || reply.term != s.current_term {
        (s, Seq::empty())
    } else if reply.success {
        let s1 = NodeView {
            match_index: s.match_index.insert(from, reply.match_index),
            next_index: s.next_index.insert(from, (reply.match_index + 1) as u64),
            ..s
        };
        advance_commit_of(s1)
    } else {
        let next: u64 = if s.next_index.contains_key(from) { s.next_index[from] } else { 1 };
        let new_next: u64 = if next <= 1 { 1 } else { (next - 1) as u64 };
        let s1 = NodeView { next_index: s.next_index.insert(from, new_next), ..s };
        (s1, seq![ActionView::Send { to: from, message: append_entries_for(s1, from) }])
    }
}

/// The universal rule: a message with a higher term makes the node a
/// follower of that term with no vote cast.
pub open spec fn observe_term_of(s: NodeView, term: Term) -> NodeView {
    if term > s.current_term {
        NodeView {
            current_term: term,
            voted_for: None,
            role: Role::Follower,
            leader_id: None,
            votes_received: Set::empty(),
            ..s
        }
    } else {
        s
    }
}

/// A message from `from`, after the step-down rule.
pub open spec fn on_message_of(s: NodeView, from: NodeId, m: MessageView) -> (NodeView, Seq<ActionView>) {
    let s1 = observe_term_of(s, m.term());
    match m {
        MessageView::RequestVote(req) => on_request_vote_of(s1, from, req),
        MessageView::RequestVoteReply(r) => on_request_vote_reply_of(s1, from, r),
        MessageView::AppendEntries(ae) => on_append_entries_of(s1, ae),
        MessageView::AppendEntriesReply(r) => on_append_entries_reply_of(s1, from, r),
    }
}

/// The whole transition: the node's next state and the actions it asks for.
pub open spec fn step_of(s: NodeView, e: EventView) -> (NodeView, Seq<ActionView>) {
    match e {
        EventView::Tick => on_tick_of(s),
        EventView::Propose { command } => on_propose_of(s, command),
        EventView::Message { from, message } => on_message_of(s, from, message),
    }
}

/// The event makes no index or term overflow in `s` (the node performs plain
/// integer arithmetic on these values).
pub open spec fn step_in_range(s: NodeView, e: EventView) -> bool {
    match e {
        EventView::Tick => if s.role == Role::Leader {
            s.heartbeat_elapsed + 1 >= s.heartbeat_timeout && s.peers.len() > 0 ==> can_extend(s)
        } else {
            s.election_elapsed + 1 >= s.election_timeout ==> {
                &&& s.current_term < u64::MAX
                &&& s.peers.len() == 0 ==> can_extend(s)
            }
        },
        EventView::Propose { .. } => s.role == Role::Leader ==> {
            &&& can_extend(s)
            &&& s.peers.len() > 0 ==> last_index_of(s.log) + 1 < u64::MAX
        },
        EventView::Message { from, message } => {
            let s1 = observe_term_of(s, message.term());
            match message {
                MessageView::RequestVote(_) => true,
                MessageView::RequestVoteReply(r) => {
                    s1.role == Role::Candidate && r.term == s1.current_term && r.vote_granted
                        && s1.votes_received.insert(from).len() >= quorum_of(s1) ==> can_extend(
                        s1,
                    )
                },
                MessageView::AppendEntries(ae) => {
                    ae.term >= s1.current_term && prev_matches(s1, ae) ==> ae.prev_log_index
                        + ae.entries.len() <= u64::MAX
                },
                MessageView::AppendEntriesReply(r) => {
                    s1.role == Role::Leader && r.term == s1.current_term ==> if r.success {
                        r.match_index < u64::MAX
                    } else {
                        can_extend(s1)
                    }
                },
            }
        },
    }
}

/// Applying committed entries leaves everything but `last_applied` alone and
/// brings it up to the commit index.
pub proof fn lemma_apply_committed_shape(s: NodeView)
    requires
        s.last_applied <= s.commit_index,
    ensures
        apply_committed_of(s).0 == (NodeView { last_applied: s.commit_index, ..s }),
{
}

/// Advancing the commit index keeps a well-formed state well-formed.
pub proof fn lemma_advance_commit_wf(s: NodeView)
    requires
        node_wf(s),
    ensures
        node_wf(advance_commit_of(s).0),
        advance_commit_of(s).0 == (NodeView {
            commit_index: advance_commit_of(s).0.commit_index,
            last_applied: advance_commit_of(s).0.commit_index,
            ..s
        }),
{
    let new_commit = highest_committable(s, last_index_of(s.log));
    if new_commit > s.commit_index {
        lemma_apply_committed_shape(NodeView { commit_index: new_commit, ..s });
    }
}

/// Every transition keeps a well-formed state well-formed.
pub proof fn lemma_step_preserves_wf(s: NodeView, e: EventView)
    requires
        node_wf(s),
        step_in_range(s, e),
    ensures
        node_wf(step_of(s, e).0),
{
    match e {
        EventView::Tick => {},
        EventView::Propose { command } => {
            if s.role == Role::Leader && s.peers.len() == 0 {
                let entry = LogEntryView {
                    term: s.current_term,
                    index: (last_index_of(s.log) + 1) as u64,
                    command,
                };
                lemma_advance_commit_wf(NodeView { log: s.log.push(entry), ..s });
            }
        },
        EventView::Message { from, message } => {
            let s1 = observe_term_of(s, message.term());
            assert(node_wf(s1));
            match message {
                MessageView::RequestVote(req) => {},
                MessageView::RequestVoteReply(r) => {},
                MessageView::AppendEntries(ae) => {
                    if ae.term >= s1.current_term && prev_matches(
                        NodeView {
                            role: Role::Follower,
                            leader_id: Some(ae.leader_id),
                            election_elapsed: 0,
                            ..s1
                        },
                        ae,
                    ) {
                        let s2 = NodeView {
                            role: Role::Follower,
                            leader_id: Some(ae.leader_id),
                            election_elapsed: 0,
                            log: merge_entries(s1.log, ae.entries),
                            ..s1
                        };
                        let match_index: u64 = (ae.prev_log_index + ae.entries.len()) as u64;
                        let a = if ae.leader_commit < match_index {
                            ae.leader_commit
                        } else {
                            match_index
                        };
                        let nc = if a < last_index_of(s2.log) {
                            a
                        } else {
                            last_index_of(s2.log)
                        };
                        if ae.leader_commit > s2.commit_index && nc > s2.commit_index {
                            lemma_apply_committed_shape(NodeView { commit_index: nc, ..s2 });
                        }
                    }
                },
                MessageView::AppendEntriesReply(r) => {
                    if s1.role == Role::Leader && r.term == s1.current_term && r.success {
                        lemma_advance_commit_wf(
                            NodeView {
                                match_index: s1.match_index.insert(from, r.match_index),
                                next_index: s1.next_index.insert(
                                    from,
                                    (r.match_index + 1) as u64,
                                ),
                                ..s1
                            },
                        );
                    }
                },
            }
        },
    }
}

} // verus!
