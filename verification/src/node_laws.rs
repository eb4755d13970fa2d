//! Laws of a single node's transition, stated over the model in `node_model`.
use vstd::prelude::*;

use crate::event::{ActionView, EventView};
use crate::message::MessageView;
use crate::node_model::{
    apply_range, advance_commit_of, become_candidate_of, become_leader_of, broadcast_of, node_wf,
    observe_term_of, on_append_entries_of, on_append_entries_reply_of, on_propose_of,
    on_request_vote_of, quorum_of, step_of, vote_requests_of, NodeView, highest_committable,
    step_in_range, append_entries_for, merge_entry, merge_entries, prev_matches, committable,
    log_up_to_date, grants_vote,
};
use crate::log::{last_index_of, suffix_from, truncated_from, LogEntryView};
use crate::types::{NodeId, Role, Term};

verus! {

/// Every action of `acts` is an Apply.
pub open spec fn only_applies(acts: Seq<ActionView>) -> bool {
    forall|k: int| 0 <= k < acts.len() ==> acts[k] is Apply
}

/// What the node sends in one transition from `s` on `e` to `s2`: every
/// message carries the new term, a vote request names the sender as
/// candidate, and a granted vote answers the request it grants.
pub open spec fn sends_ok(s: NodeView, e: EventView, s2: NodeView, acts: Seq<ActionView>) -> bool {
    forall|k: int|
        0 <= k < acts.len() ==> match #[trigger] acts[k] {
            ActionView::Send { to, message } => {
                &&& message.term() == s2.current_term
                &&& message matches MessageView::RequestVote(m) ==> m.candidate_id == s.id
                &&& message matches MessageView::RequestVoteReply(r) ==> (r.vote_granted ==> {
                    &&& e matches EventView::Message { from, message: MessageView::RequestVote(req) }
                    &&& to == from
                    &&& s2.voted_for == Some(req.candidate_id)
                })
            },
            ActionView::Apply { .. } => true,
        }
}

/// Apply ranges hold Apply actions only.
pub proof fn lemma_apply_range_only_applies(log: Seq<crate::log::LogEntryView>, lo: int, hi: int)
    ensures
        only_applies(apply_range(log, lo, hi)),
    decreases hi - lo,
{
    if hi > lo {
        lemma_apply_range_only_applies(log, lo, hi - 1);
    }
}

/// Committing holds Apply actions only and keeps term, vote, role and votes.
pub proof fn lemma_advance_commit_quiet(s: NodeView)
    ensures
        only_applies(advance_commit_of(s).1),
        advance_commit_of(s).0.current_term == s.current_term,
        advance_commit_of(s).0.voted_for == s.voted_for,
        advance_commit_of(s).0.role == s.role,
        advance_commit_of(s).0.votes_received == s.votes_received,
        advance_commit_of(s).0.peers == s.peers,
        advance_commit_of(s).0.id == s.id,
{
    let nc = highest_committable(s, last_index_of(s.log));
    if nc > s.commit_index {
        let s1 = NodeView { commit_index: nc, ..s };
        lemma_apply_range_only_applies(s1.log, s1.last_applied as int, s1.commit_index as int);
    }
}

/// The term never decreases: a message raises it to the message's term at
/// most, a tick by one at most, a proposal not at all.
pub proof fn lemma_step_term(s: NodeView, e: EventView)
    requires
        step_in_range(s, e),
    ensures
        step_of(s, e).0.current_term >= s.current_term,
        step_of(s, e).0.id == s.id,
        step_of(s, e).0.peers == s.peers,
        match e {
            EventView::Tick => step_of(s, e).0.current_term <= s.current_term + 1,
            EventView::Propose { .. } => step_of(s, e).0.current_term == s.current_term,
            EventView::Message { message, .. } => step_of(s, e).0.current_term == if message.term()
                > s.current_term {
                message.term()
            } else {
                s.current_term
            },
        },
{
    match e {
        EventView::Propose { command } => {
            assert(step_of(s, e) == on_propose_of(s, command));
            if s.role == Role::Leader {
                let entry = crate::log::LogEntryView {
                    term: s.current_term,
                    index: (last_index_of(s.log) + 1) as u64,
                    command,
                };
                let s1 = NodeView { log: s.log.push(entry), ..s };
                lemma_advance_commit_quiet(s1);
                if s.peers.len() == 0 {
                    assert(step_of(s, e) == advance_commit_of(s1));
                } else {
                    assert(step_of(s, e).0 == s1);
                }
            }
        },
        EventView::Message { from, message } => {
            let s1 = observe_term_of(s, message.term());
            match message {
                MessageView::AppendEntriesReply(r) => {
                    if s1.role == Role::Leader && r.term == s1.current_term && r.success {
                        lemma_advance_commit_quiet(
                            NodeView {
                                match_index: s1.match_index.insert(from, r.match_index),
                                next_index: s1.next_index.insert(from, (r.match_index + 1) as u64),
                                ..s1
                            },
                        );
                    }
                },
                _ => {},
            }
        },
        EventView::Tick => {},
    }
}

/// `v`'s vote for term `t` arrives with event `e`: a granted reply of that term
/// sent by `v`.
pub open spec fn vote_arrives(e: EventView, t: Term, v: NodeId) -> bool {
    e matches EventView::Message { from, message: MessageView::RequestVoteReply(r) } && r.vote_granted
        && r.term == t && from == v
}

/// A leader's AppendEntries broadcast carries its term and nothing else.
pub proof fn lemma_broadcast_sends(s: NodeView, e: EventView, s2: NodeView)
    requires
        s2.current_term == s.current_term,
    ensures
        sends_ok(s, e, s2, broadcast_of(s)),
{
}

/// A candidate's vote requests name it and carry its term.
pub proof fn lemma_vote_requests_sends(s: NodeView, e: EventView, s2: NodeView)
    requires
        s2.current_term == s.current_term,
    ensures
        sends_ok(s, e, s2, vote_requests_of(s)),
{
}

/// Apply actions send nothing.
pub proof fn lemma_applies_send_nothing(s: NodeView, e: EventView, s2: NodeView, acts: Seq<ActionView>)
    requires
        only_applies(acts),
    ensures
        sends_ok(s, e, s2, acts),
{
    assert forall|k: int| 0 <= k < acts.len() implies match #[trigger] acts[k] {
        ActionView::Send { to, message } => {
            &&& message.term() == s2.current_term
            &&& message matches MessageView::RequestVote(m) ==> m.candidate_id == s.id
            &&& message matches MessageView::RequestVoteReply(r) ==> (r.vote_granted ==> {
                &&& e matches EventView::Message { from, message: MessageView::RequestVote(req) }
                &&& to == from
                &&& s2.voted_for == Some(req.candidate_id)
            })
        },
        ActionView::Apply { .. } => true,
    } by {
        assert(acts[k] is Apply);
    }
}

/// Candidacy: the new term, a self-vote, and vote requests (or leadership at
/// once for a node without peers).
pub proof fn lemma_become_candidate(s: NodeView, e: EventView)
    requires
        s.current_term < u64::MAX,
    ensures
        ({
            let (s2, acts) = become_candidate_of(s);
            &&& s2.current_term == s.current_term + 1
            &&& s2.voted_for == Some(s.id)
            &&& s2.votes_received == Set::<NodeId>::empty().insert(s.id)
            &&& s2.role != Role::Follower
            &&& s2.id == s.id
            &&& s2.peers == s.peers
            &&& (s2.role == Role::Leader ==> s.peers.len() == 0)
            &&& sends_ok(s, e, s2, acts)
        }),
{
    let s1 = NodeView {
        current_term: (s.current_term + 1) as u64,
        role: Role::Candidate,
        voted_for: Some(s.id),
        votes_received: Set::empty().insert(s.id),
        election_elapsed: 0,
        leader_id: None,
        ..s
    };
    if s.peers.len() == 0 {
        lemma_broadcast_sends(become_leader_of(s1).0, e, become_leader_of(s1).0);
    } else {
        lemma_vote_requests_sends(s1, e, s1);
    }
}

/// How one transition treats votes: a cast vote stands for the rest of its
/// term, messages carry the new term, a candidate's or leader's votes come
/// from before, from the vote arriving now, or from its own fresh candidacy,
/// and a new leader holds a quorum of votes.
pub proof fn lemma_step_votes(s: NodeView, e: EventView)
    requires
        node_wf(s),
        step_in_range(s, e),
    ensures
        ({
            let (s2, acts) = step_of(s, e);
            &&& s2.current_term == s.current_term && s.voted_for is Some ==> s2.voted_for
                == s.voted_for
            &&& sends_ok(s, e, s2, acts)
            &&& s2.role != Role::Follower ==> {
                ||| {
                    &&& s2.current_term == s.current_term
                    &&& s.role != Role::Follower
                    &&& forall|v: NodeId| #[trigger]
                        s2.votes_received.contains(v) ==> s.votes_received.contains(v)
                            || vote_arrives(e, s2.current_term, v)
                }
                ||| {
                    &&& e is Tick
                    &&& s2.votes_received == Set::<NodeId>::empty().insert(s.id)
                    &&& s2.voted_for == Some(s.id)
                }
            }
            &&& s2.role == Role::Leader ==> {
                ||| (s.role == Role::Leader && s2.votes_received == s.votes_received
                    && s2.current_term == s.current_term)
                ||| s2.votes_received.len() >= quorum_of(s2)
            }
        }),
{
    match e {
        EventView::Tick => {
            if s.role == Role::Leader {
                let hb: u32 = (s.heartbeat_elapsed + 1) as u32;
                if hb >= s.heartbeat_timeout {
                    let s1 = NodeView { heartbeat_elapsed: 0, ..s };
                    lemma_broadcast_sends(s1, e, s1);
                }
            } else {
                let ee: u32 = (s.election_elapsed + 1) as u32;
                if ee >= s.election_timeout {
                    lemma_become_candidate(NodeView { election_elapsed: ee, ..s }, e);
                }
            }
        },
        EventView::Propose { command } => {
            if s.role == Role::Leader {
                let entry = crate::log::LogEntryView {
                    term: s.current_term,
                    index: (last_index_of(s.log) + 1) as u64,
                    command,
                };
                let s1 = NodeView { log: s.log.push(entry), ..s };
                lemma_advance_commit_quiet(s1);
                if s.peers.len() == 0 {
                    lemma_applies_send_nothing(s, e, advance_commit_of(s1).0, advance_commit_of(s1).1);
                } else {
                    lemma_broadcast_sends(s1, e, s1);
                }
            }
        },
        EventView::Message { from, message } => {
            let s1 = observe_term_of(s, message.term());
            match message {
                MessageView::RequestVote(req) => {
                    let (s2, acts) = on_request_vote_of(s1, from, req);
                    assert(sends_ok(s, e, s2, acts)) by {
                        assert(acts.len() == 1);
                    }
                },
                MessageView::RequestVoteReply(r) => {
                    if s1.role == Role::Candidate && r.term == s1.current_term && r.vote_granted {
                        let s2 = NodeView { votes_received: s1.votes_received.insert(from), ..s1 };
                        if s2.votes_received.len() >= quorum_of(s2) {
                            lemma_broadcast_sends(become_leader_of(s2).0, e, become_leader_of(s2).0);
                        }
                    }
                },
                MessageView::AppendEntries(ae) => {
                    let (s2, acts) = on_append_entries_of(s1, ae);
                    if ae.term >= s1.current_term {
                        let s1b = NodeView {
                            role: Role::Follower,
                            leader_id: Some(ae.leader_id),
                            election_elapsed: 0,
                            ..s1
                        };
                        if crate::node_model::prev_matches(s1b, ae) {
                            let s2b = NodeView {
                                log: crate::node_model::merge_entries(s1b.log, ae.entries),
                                ..s1b
                            };
                            lemma_apply_range_only_applies(
                                s2b.log,
                                s2b.commit_index as int,
                                s2.commit_index as int,
                            );
                            assert(sends_ok(s, e, s2, acts)) by {
                                assert forall|k: int| 0 <= k < acts.len() - 1 implies acts[k] is Apply by {
                                    if s2.commit_index != s2b.commit_index {
                                        assert(acts[k] == apply_range(
                                            s2b.log,
                                            s2b.commit_index as int,
                                            s2.commit_index as int,
                                        )[k]);
                                    }
                                }
                            }
                        } else {
                            assert(sends_ok(s, e, s2, acts)) by {
                                assert(acts.len() == 1);
                            }
                        }
                    } else {
                        assert(sends_ok(s, e, s2, acts)) by {
                            assert(acts.len() == 1);
                        }
                    }
                },
                MessageView::AppendEntriesReply(r) => {
                    if s1.role == Role::Leader && r.term == s1.current_term {
                        if r.success {
                            let s2 = NodeView {
                                match_index: s1.match_index.insert(from, r.match_index),
                                next_index: s1.next_index.insert(from, (r.match_index + 1) as u64),
                                ..s1
                            };
                            lemma_advance_commit_quiet(s2);
                            lemma_applies_send_nothing(s, e, advance_commit_of(s2).0, advance_commit_of(s2).1);
                        } else {
                            let (s2, acts) = on_append_entries_reply_of(s1, from, r);
                            assert(sends_ok(s, e, s2, acts)) by {
                                assert(acts.len() == 1);
                            }
                        }
                    }
                },
            }
        },
    }
}

/// Position `k` of `log` holds index `k + 1`.
pub open spec fn contiguous(log: Seq<LogEntryView>) -> bool {
    forall|k: int| 0 <= k < log.len() ==> #[trigger] log[k].index == k + 1
}

/// The entries carry the consecutive indices `start, start + 1, ...`.
pub open spec fn indexed_from(entries: Seq<LogEntryView>, start: int) -> bool {
    forall|k: int| 0 <= k < entries.len() ==> #[trigger] entries[k].index == start + k
}

/// The node's log is contiguous and no longer than `b`, and every next index
/// it keeps is at most `b + 1`.
pub open spec fn log_bounded(s: NodeView, b: nat) -> bool {
    &&& contiguous(s.log)
    &&& s.log.len() <= b
    &&& forall|p: NodeId| #[trigger] s.next_index.contains_key(p) ==> s.next_index[p] <= b + 1
}

/// A message whose indices stay within `b`: AppendEntries carry consecutive
/// entries that end by `b`, replies acknowledge no index past `b`.
pub open spec fn message_bounded(m: MessageView, b: nat) -> bool {
    match m {
        MessageView::AppendEntries(ae) => {
            &&& indexed_from(ae.entries, ae.prev_log_index + 1)
            &&& ae.prev_log_index + ae.entries.len() <= b
        },
        MessageView::AppendEntriesReply(r) => r.match_index <= b,
        _ => true,
    }
}

/// Every message of `acts` is bounded by `b`.
pub open spec fn sends_bounded(acts: Seq<ActionView>, b: nat) -> bool {
    forall|k: int|
        0 <= k < acts.len() ==> match #[trigger] acts[k] {
            ActionView::Send { message, .. } => message_bounded(message, b),
            ActionView::Apply { .. } => true,
        }
}

/// Merging consecutive entries that start within one past the log keeps the
/// log contiguous, and no longer than the longer of the log and the entries'
/// end.
pub proof fn lemma_merge_contiguous(log: Seq<LogEntryView>, entries: Seq<LogEntryView>, start: int)
    requires
        contiguous(log),
        indexed_from(entries, start),
        1 <= start <= log.len() + 1,
    ensures
        contiguous(merge_entries(log, entries)),
        merge_entries(log, entries).len() <= log.len() || merge_entries(log, entries).len()
            <= start - 1 + entries.len(),
    decreases entries.len(),
{
    if entries.len() > 0 {
        let e = entries[0];
        assert(e.index == start);
        let log1 = merge_entry(log, e);
        if start <= log.len() {
            assert(log[start - 1].index == start);
            if log[start - 1].term != e.term {
                let t = truncated_from(log, e.index);
                assert(t =~= log.subrange(0, start - 1));
                assert(contiguous(log1)) by {
                    assert forall|k: int| 0 <= k < log1.len() implies #[trigger] log1[k].index == k + 1 by {
                        if k < start - 1 {
                            assert(log1[k] == log[k]);
                        }
                    }
                }
            }
        } else {
            assert(contiguous(log1)) by {
                assert forall|k: int| 0 <= k < log1.len() implies #[trigger] log1[k].index == k + 1 by {
                    if k < log.len() {
                        assert(log1[k] == log[k]);
                    }
                }
            }
        }
        assert(log1.len() >= start);
        assert(indexed_from(entries.drop_first(), start + 1)) by {
            assert forall|k: int| 0 <= k < entries.drop_first().len() implies #[trigger] entries.drop_first()[k].index == start + 1 + k by {
                assert(entries.drop_first()[k] == entries[k + 1]);
            }
        }
        lemma_merge_contiguous(log1, entries.drop_first(), start + 1);
    }
}

/// The AppendEntries a bounded leader builds are bounded.
pub proof fn lemma_append_entries_bounded(s: NodeView, to: NodeId, b: nat)
    requires
        log_bounded(s, b),
        b + 2 < u64::MAX,
    ensures
        message_bounded(append_entries_for(s, to), b),
{
    let next: u64 = if s.next_index.contains_key(to) {
        s.next_index[to]
    } else {
        (last_index_of(s.log) + 1) as u64
    };
    if s.log.len() > 0 {
        assert(s.log[s.log.len() - 1].index == s.log.len());
    }
    assert(next <= b + 1);
    let prev: u64 = if next == 0 { 0 } else { (next - 1) as u64 };
    let entries = suffix_from(s.log, next);
    if next == 0 {
        assert(entries == s.log);
    } else if next - 1 < s.log.len() {
        assert forall|k: int| 0 <= k < entries.len() implies #[trigger] entries[k].index == prev + 1 + k by {
            assert(entries[k] == s.log[next - 1 + k]);
        }
    }
}

/// A leader's broadcast is bounded.
pub proof fn lemma_broadcast_bounded(s: NodeView, b: nat)
    requires
        log_bounded(s, b),
        b + 2 < u64::MAX,
    ensures
        sends_bounded(broadcast_of(s), b),
{
    assert forall|k: int| 0 <= k < broadcast_of(s).len() implies match #[trigger] broadcast_of(s)[k] {
        ActionView::Send { message, .. } => message_bounded(message, b),
        ActionView::Apply { .. } => true,
    } by {
        lemma_append_entries_bounded(s, s.peers[k], b);
    }
}

/// With its log and every incoming message bounded by `b`, a node makes no
/// overflow, stays bounded, and sends bounded messages only. A proposal needs
/// room for one more entry within `b`.
pub proof fn lemma_step_bounds(s: NodeView, e: EventView, b: nat)
    requires
        node_wf(s),
        log_bounded(s, b),
        b + 2 < u64::MAX,
        match e {
            EventView::Tick => s.current_term < u64::MAX,
            EventView::Propose { .. } => s.log.len() < b,
            EventView::Message { message, .. } => message_bounded(message, b),
        },
    ensures
        step_in_range(s, e),
        log_bounded(step_of(s, e).0, b),
        sends_bounded(step_of(s, e).1, b),
{
    if s.log.len() > 0 {
        assert(s.log[s.log.len() - 1].index == s.log.len());
    }
    assert(last_index_of(s.log) == s.log.len());
    match e {
        EventView::Tick => {
            if s.role == Role::Leader {
                let hb: u32 = (s.heartbeat_elapsed + 1) as u32;
                if hb >= s.heartbeat_timeout {
                    lemma_broadcast_bounded(NodeView { heartbeat_elapsed: 0, ..s }, b);
                }
            } else {
                let ee: u32 = (s.election_elapsed + 1) as u32;
                if ee >= s.election_timeout {
                    let s0 = NodeView { election_elapsed: ee, ..s };
                    let s1 = NodeView {
                        current_term: (s0.current_term + 1) as u64,
                        role: Role::Candidate,
                        voted_for: Some(s0.id),
                        votes_received: Set::empty().insert(s0.id),
                        election_elapsed: 0,
                        leader_id: None,
                        ..s0
                    };
                    if s.peers.len() == 0 {
                        lemma_broadcast_bounded(become_leader_of(s1).0, b);
                    }
                }
            }
        },
        EventView::Propose { command } => {
            if s.role == Role::Leader {
                let entry = LogEntryView {
                    term: s.current_term,
                    index: (last_index_of(s.log) + 1) as u64,
                    command,
                };
                let s1 = NodeView { log: s.log.push(entry), ..s };
                assert(contiguous(s1.log)) by {
                    assert forall|k: int| 0 <= k < s1.log.len() implies #[trigger] s1.log[k].index == k + 1 by {
                        if k < s.log.len() {
                            assert(s1.log[k] == s.log[k]);
                        }
                    }
                }
                lemma_advance_commit_quiet(s1);
                if s.peers.len() == 0 {
                    let nc = highest_committable(s1, last_index_of(s1.log));
                    assert(sends_bounded(advance_commit_of(s1).1, b)) by {
                        assert forall|k: int| 0 <= k < advance_commit_of(s1).1.len() implies match #[trigger] advance_commit_of(s1).1[k] {
                            ActionView::Send { message, .. } => message_bounded(message, b),
                            ActionView::Apply { .. } => true,
                        } by {
                            assert(advance_commit_of(s1).1[k] is Apply);
                        }
                    }
                } else {
                    lemma_broadcast_bounded(s1, b);
                }
            }
        },
        EventView::Message { from, message } => {
            let s1 = observe_term_of(s, message.term());
            assert(log_bounded(s1, b));
            match message {
                MessageView::RequestVote(req) => {},
                MessageView::RequestVoteReply(r) => {
                    if s1.role == Role::Candidate && r.term == s1.current_term && r.vote_granted {
                        let s2 = NodeView { votes_received: s1.votes_received.insert(from), ..s1 };
                        if s2.votes_received.len() >= quorum_of(s2) {
                            lemma_broadcast_bounded(become_leader_of(s2).0, b);
                        }
                    }
                },
                MessageView::AppendEntries(ae) => {
                    let (s2, acts) = on_append_entries_of(s1, ae);
                    if ae.term >= s1.current_term {
                        let s1b = NodeView {
                            role: Role::Follower,
                            leader_id: Some(ae.leader_id),
                            election_elapsed: 0,
                            ..s1
                        };
                        if prev_matches(s1b, ae) {
                            lemma_merge_contiguous(s1b.log, ae.entries, ae.prev_log_index + 1);
                            let s2b = NodeView { log: merge_entries(s1b.log, ae.entries), ..s1b };
                            lemma_apply_range_only_applies(
                                s2b.log,
                                s2b.commit_index as int,
                                s2.commit_index as int,
                            );
                            assert(sends_bounded(acts, b)) by {
                                assert forall|k: int| 0 <= k < acts.len() - 1 implies acts[k] is Apply by {
                                    if s2.commit_index != s2b.commit_index {
                                        assert(acts[k] == apply_range(
                                            s2b.log,
                                            s2b.commit_index as int,
                                            s2.commit_index as int,
                                        )[k]);
                                    }
                                }
                            }
                        }
                    }
                },
                MessageView::AppendEntriesReply(r) => {
                    if s1.role == Role::Leader && r.term == s1.current_term {
                        if r.success {
                            let s2 = NodeView {
                                match_index: s1.match_index.insert(from, r.match_index),
                                next_index: s1.next_index.insert(from, (r.match_index + 1) as u64),
                                ..s1
                            };
                            lemma_advance_commit_quiet(s2);
                            let nc = highest_committable(s2, last_index_of(s2.log));
                            assert(sends_bounded(advance_commit_of(s2).1, b)) by {
                                assert forall|k: int| 0 <= k < advance_commit_of(s2).1.len() implies match #[trigger] advance_commit_of(s2).1[k] {
                                    ActionView::Send { message, .. } => message_bounded(message, b),
                                    ActionView::Apply { .. } => true,
                                } by {
                                    assert(advance_commit_of(s2).1[k] is Apply);
                                }
                            }
                        } else {
                            let next: u64 = if s1.next_index.contains_key(from) {
                                s1.next_index[from]
                            } else {
                                1
                            };
                            let new_next: u64 = if next <= 1 { 1 } else { (next - 1) as u64 };
                            let s2 = NodeView { next_index: s1.next_index.insert(from, new_next), ..s1 };
                            lemma_append_entries_bounded(s2, from, b);
                        }
                    }
                },
            }
        },
    }
}

/// The Apply actions of `acts`, in order.
pub open spec fn applies_of(acts: Seq<ActionView>) -> Seq<ActionView>
    decreases acts.len(),
{
    if acts.len() == 0 {
        Seq::empty()
    } else {
        applies_of(acts.drop_last()) + if acts.last() is Apply {
            seq![acts.last()]
        } else {
            Seq::empty()
        }
    }
}

/// A sequence of Apply actions is its own list of applies.
pub proof fn lemma_applies_of_applies(acts: Seq<ActionView>)
    requires
        only_applies(acts),
    ensures
        applies_of(acts) == acts,
    decreases acts.len(),
{
    if acts.len() > 0 {
        assert(only_applies(acts.drop_last()));
        lemma_applies_of_applies(acts.drop_last());
        assert(acts =~= acts.drop_last().push(acts.last()));
    }
}

/// A sequence of sends has no applies.
pub proof fn lemma_applies_of_sends(acts: Seq<ActionView>)
    requires
        forall|k: int| 0 <= k < acts.len() ==> acts[k] is Send,
    ensures
        applies_of(acts) == Seq::<ActionView>::empty(),
    decreases acts.len(),
{
    if acts.len() > 0 {
        lemma_applies_of_sends(acts.drop_last());
    }
}

/// How many peers hold an index depends only on the recorded match indices.
pub proof fn lemma_peers_holding_same(s: NodeView, t: NodeView, peers: Seq<NodeId>, n: u64)
    requires
        s.match_index == t.match_index,
    ensures
        crate::node_model::peers_holding(s, peers, n) == crate::node_model::peers_holding(t, peers, n),
    decreases peers.len(),
{
    if peers.len() > 0 {
        lemma_peers_holding_same(s, t, peers.drop_last(), n);
    }
}

/// Advancing the commit index applies the newly committed entries and, when
/// it moves, moves to an index that may be committed.
pub proof fn lemma_advance_commit_applies(s: NodeView)
    requires
        node_wf(s),
    ensures
        ({
            let (s2, acts) = advance_commit_of(s);
            &&& applies_of(acts) == apply_range(s2.log, s.commit_index as int, s2.commit_index as int)
            &&& s2.commit_index > s.commit_index ==> committable(s2, s2.commit_index)
            &&& s2.commit_index >= s.commit_index
        }),
{
    lemma_advance_commit_quiet(s);
    let (s2, acts) = advance_commit_of(s);
    lemma_applies_of_applies(acts);
    lemma_highest_committable(s, last_index_of(s.log));
    let nc = highest_committable(s, last_index_of(s.log));
    if nc > s.commit_index {
        lemma_peers_holding_same(s, s2, s.peers, nc);
    } else {
        assert(apply_range(s2.log, s.commit_index as int, s2.commit_index as int) == Seq::<ActionView>::empty());
    }
}

/// The highest committable index is the commit index or an index that may be
/// committed.
pub proof fn lemma_highest_committable(s: NodeView, n: u64)
    ensures
        highest_committable(s, n) == s.commit_index || (s.commit_index < highest_committable(s, n)
            <= n && committable(s, highest_committable(s, n))),
    decreases n,
{
    if n > s.commit_index && !committable(s, n) {
        lemma_highest_committable(s, (n - 1) as u64);
    }
}

/// Committing and applying: a step never lowers the commit index, applies
/// exactly the entries of its new log from the old commit index (exclusive)
/// to the new one (inclusive), in order, and a leader that stays leader only
/// raises its commit index to an entry of its current term held by a quorum.
pub proof fn lemma_step_commit(s: NodeView, e: EventView)
    requires
        node_wf(s),
        step_in_range(s, e),
    ensures
        ({
            let (s2, acts) = step_of(s, e);
            &&& s2.commit_index >= s.commit_index
            &&& s2.last_applied == s2.commit_index
            &&& applies_of(acts) == apply_range(s2.log, s.commit_index as int, s2.commit_index as int)
            &&& s.role == Role::Leader && s2.role == Role::Leader && s2.commit_index > s.commit_index
                ==> committable(s2, s2.commit_index)
        }),
{
    lemma_step_preserves_wf_here(s, e);
    let (s2, acts) = step_of(s, e);
    assert(apply_range(s2.log, s.commit_index as int, s.commit_index as int) == Seq::<ActionView>::empty());
    match e {
        EventView::Tick => {
            if s.role == Role::Leader {
                let hb: u32 = (s.heartbeat_elapsed + 1) as u32;
                if hb >= s.heartbeat_timeout {
                    lemma_applies_of_sends(broadcast_of(NodeView { heartbeat_elapsed: 0, ..s }));
                } else {
                    lemma_applies_of_sends(acts);
                }
            } else {
                let ee: u32 = (s.election_elapsed + 1) as u32;
                if ee >= s.election_timeout {
                    let s0 = NodeView { election_elapsed: ee, ..s };
                    let s1 = NodeView {
                        current_term: (s0.current_term + 1) as u64,
                        role: Role::Candidate,
                        voted_for: Some(s0.id),
                        votes_received: Set::empty().insert(s0.id),
                        election_elapsed: 0,
                        leader_id: None,
                        ..s0
                    };
                    if s.peers.len() == 0 {
                        lemma_applies_of_sends(broadcast_of(become_leader_of(s1).0));
                    } else {
                        lemma_applies_of_sends(vote_requests_of(s1));
                    }
                } else {
                    lemma_applies_of_sends(acts);
                }
            }
        },
        EventView::Propose { command } => {
            if s.role == Role::Leader {
                let entry = LogEntryView {
                    term: s.current_term,
                    index: (last_index_of(s.log) + 1) as u64,
                    command,
                };
                let s1 = NodeView { log: s.log.push(entry), ..s };
                if s.peers.len() == 0 {
                    lemma_advance_commit_applies(s1);
                } else {
                    lemma_applies_of_sends(broadcast_of(s1));
                }
            } else {
                lemma_applies_of_sends(acts);
            }
        },
        EventView::Message { from, message } => {
            let s1 = observe_term_of(s, message.term());
            match message {
                MessageView::RequestVote(req) => {
                    lemma_applies_of_sends(acts);
                },
                MessageView::RequestVoteReply(r) => {
                    if s1.role == Role::Candidate && r.term == s1.current_term && r.vote_granted {
                        let s2b = NodeView { votes_received: s1.votes_received.insert(from), ..s1 };
                        if s2b.votes_received.len() >= quorum_of(s2b) {
                            lemma_applies_of_sends(broadcast_of(become_leader_of(s2b).0));
                        } else {
                            lemma_applies_of_sends(acts);
                        }
                    } else {
                        lemma_applies_of_sends(acts);
                    }
                },
                MessageView::AppendEntries(ae) => {
                    if ae.term >= s1.current_term {
                        let s1b = NodeView {
                            role: Role::Follower,
                            leader_id: Some(ae.leader_id),
                            election_elapsed: 0,
                            ..s1
                        };
                        if prev_matches(s1b, ae) {
                            let s2b = NodeView { log: merge_entries(s1b.log, ae.entries), ..s1b };
                            let applied = apply_range(s2b.log, s2b.commit_index as int, s2.commit_index as int);
                            lemma_apply_range_only_applies(s2b.log, s2b.commit_index as int, s2.commit_index as int);
                            if s2.commit_index != s2b.commit_index {
                                lemma_applies_of_applies(applied);
                                assert(acts.drop_last() =~= applied);
                            } else {
                                assert(acts.drop_last() =~= Seq::<ActionView>::empty());
                            }
                            assert(acts.last() is Send);
                            assert(applies_of(acts) =~= applies_of(acts.drop_last()));
                        } else {
                            lemma_applies_of_sends(acts);
                        }
                    } else {
                        lemma_applies_of_sends(acts);
                    }
                },
                MessageView::AppendEntriesReply(r) => {
                    if s1.role == Role::Leader && r.term == s1.current_term {
                        if r.success {
                            let s2b = NodeView {
                                match_index: s1.match_index.insert(from, r.match_index),
                                next_index: s1.next_index.insert(from, (r.match_index + 1) as u64),
                                ..s1
                            };
                            lemma_advance_commit_applies(s2b);
                        } else {
                            lemma_applies_of_sends(acts);
                        }
                    } else {
                        lemma_applies_of_sends(acts);
                    }
                },
            }
        },
    }
}

/// The step keeps its state well-formed (a restatement used locally).
proof fn lemma_step_preserves_wf_here(s: NodeView, e: EventView)
    requires
        node_wf(s),
        step_in_range(s, e),
    ensures
        node_wf(step_of(s, e).0),
{
    crate::node_model::lemma_step_preserves_wf(s, e);
}

/// The election restriction: a node grants a vote only to a request of its
/// current term whose candidate's log is at least as up-to-date as its own,
/// and only if it has not voted for another candidate in that term.
pub proof fn lemma_vote_restriction(s: NodeView, from: NodeId, req: crate::message::RequestVote)
    ensures
        ({
            let e = EventView::Message { from, message: MessageView::RequestVote(req) };
            let s1 = observe_term_of(s, req.term);
            let (s2, acts) = step_of(s, e);
            &&& acts.len() == 1
            &&& acts[0] == ActionView::Send {
                to: from,
                message: MessageView::RequestVoteReply(
                    crate::message::RequestVoteReply {
                        term: s1.current_term,
                        vote_granted: grants_vote(s1, req),
                    },
                ),
            }
            &&& grants_vote(s1, req) ==> {
                &&& req.term == s1.current_term
                &&& log_up_to_date(s1, req.last_log_term, req.last_log_index)
                &&& (s1.voted_for is None || s1.voted_for == Some(req.candidate_id))
                &&& s2.voted_for == Some(req.candidate_id)
            }
        }),
{
}

/// Step-down on a higher term: a message of a later term makes the node a
/// follower of that term whose vote is reset, cast again only by granting
/// the very request that raised the term.
pub proof fn lemma_step_down(s: NodeView, from: NodeId, m: MessageView)
    requires
        m.term() > s.current_term,
    ensures
        ({
            let s2 = step_of(s, EventView::Message { from, message: m }).0;
            &&& s2.current_term == m.term()
            &&& s2.role == Role::Follower
            &&& s2.voted_for is None || m is RequestVote
        }),
{
}

/// Log repair: a leader told by `from` that an append of its current term
/// failed steps its next index for `from` back by one, never below 1, and
/// retries at once from there: the retried request's previous entry is the one
/// just before the new next index, and it carries the leader's log from the
/// new next index on.
pub proof fn lemma_append_backoff(s: NodeView, from: NodeId, r: crate::message::AppendEntriesReply)
    requires
        s.role == Role::Leader,
        r.term == s.current_term,
        !r.success,
    ensures
        ({
            let (s2, acts) = step_of(
                s,
                EventView::Message { from, message: MessageView::AppendEntriesReply(r) },
            );
            let n: int = if s.next_index.contains_key(from) { s.next_index[from] as int } else { 1 };
            let n2: int = if n > 1 { n - 1 } else { 1 };
            &&& s2.next_index.contains_key(from)
            &&& s2.next_index[from] == n2
            &&& n > 1 ==> s2.next_index[from] < n
            &&& forall|p: NodeId| p != from && #[trigger] s.next_index.contains_key(p) ==> s2.next_index.contains_key(p)
                && s2.next_index[p] == s.next_index[p]
            &&& s2.log == s.log
            &&& s2.role == Role::Leader
            &&& acts.len() == 1
            &&& acts[0] matches ActionView::Send { to, message: MessageView::AppendEntries(ae) } && {
                &&& to == from
                &&& ae.term == s.current_term
                &&& ae.leader_id == s.id
                &&& ae.prev_log_index == n2 - 1
                &&& ae.entries == if n2 - 1 < s.log.len() {
                    s.log.subrange(n2 - 1, s.log.len() as int)
                } else {
                    Seq::<LogEntryView>::empty()
                }
                &&& ae.leader_commit == s.commit_index
            }
        }),
{
    let e = EventView::Message { from, message: MessageView::AppendEntriesReply(r) };
    let (s2, acts) = step_of(s, e);
    assert(observe_term_of(s, r.term) == s);
    let ae = append_entries_for(s2, from);
    assert(acts == seq![ActionView::Send { to: from, message: ae }]);
}

/// The election restriction as an order: a vote request that a node may
/// answer (its term is at least the node's, and the node has no vote of that
/// term for someone else) is granted exactly when the candidate's
/// (last log term, last log index) is at least the node's in lexicographic
/// order: a higher last term wins whatever the lengths, an equal last term
/// needs a log at least as long, a lower last term loses. A granted vote is
/// the node's vote for that candidate, and a retransmitted request from the
/// candidate it already voted for is granted again.
pub proof fn lemma_vote_order(s: NodeView, from: NodeId, req: crate::message::RequestVote)
    requires
        req.term >= s.current_term,
        req.term > s.current_term || s.voted_for is None || s.voted_for == Some(req.candidate_id),
    ensures
        ({
            let (s2, acts) = step_of(s, EventView::Message { from, message: MessageView::RequestVote(req) });
            let my_term = crate::log::last_term_of(s.log);
            let my_index = crate::log::last_index_of(s.log);
            let granted = req.last_log_term > my_term || (req.last_log_term == my_term
                && req.last_log_index >= my_index);
            &&& acts == seq![
                ActionView::Send {
                    to: from,
                    message: MessageView::RequestVoteReply(
                        crate::message::RequestVoteReply { term: req.term, vote_granted: granted },
                    ),
                },
            ]
            &&& s2.current_term == req.term
            &&& granted ==> s2.voted_for == Some(req.candidate_id)
            &&& req.last_log_term > my_term ==> acts[0] == ActionView::Send {
                to: from,
                message: MessageView::RequestVoteReply(
                    crate::message::RequestVoteReply { term: req.term, vote_granted: true },
                ),
            }
            &&& req.last_log_term < my_term ==> !granted
        }),
{
}

} // verus!
