//! The safety invariant across vote requests, vote replies (and the
//! election they may complete) and AppendEntries replies.
use vstd::prelude::*;

use crate::cluster_model::{
    ghost_after, ids_below, lemma_step_node, node_ok, peers_for, step_node, ClusterGhost,
    ClusterView,
};
use crate::event::{ActionView, EventView};
use crate::history::{
    ack_of, leader_ok, majority, msg_safe, node_safe, progress_ok, valid_pair, vote_ok, History,
};
use crate::history_frame::{history_after, lemma_grows_certified, lemma_grows_matches};
use crate::message::{AppendEntriesReply, MessageView, RequestVote, RequestVoteReply};
use crate::node_model::{
    advance_commit_of, append_entries_for, become_leader_of, observe_term_of, quorum_of, step_of,
    NodeView,
};
use crate::safety_elect::{lemma_election_voters, lemma_leader_ok_continuing, lemma_leader_ok_elected};
use crate::safety_frame::{lemma_step_cluster, lemma_step_grows, own_ok, step_ctx};
use crate::safety_own::{
    lemma_leader_broadcast, lemma_leader_request, lemma_own_acks_same, lemma_own_same_log,
};
use crate::safety_tick::{lemma_extends_self, step_base};
use crate::types::{NodeId, Role, Term};

verus! {

/// A node other than `id` is one of its peers.
pub proof fn lemma_is_peer(count: nat, id: NodeId, p: NodeId)
    requires
        id < count <= u64::MAX,
        p < count,
        p != id,
    ensures
        peers_for(count, id).contains(p),
{
    let ps = peers_for(count, id);
    if p < id {
        assert(ps[p as int] == p);
    } else {
        assert(ps[p - 1] == p);
    }
}

/// A candidate that wins a term nobody had led: another leader of the term
/// would have been elected by a majority disjoint from the candidate's.
pub proof fn lemma_no_second_leader(c: ClusterView, g: ClusterGhost, h: History, id: NodeId, e: EventView)
    requires
        step_base(c, g, h, id, e),
        c.nodes[id as int].role == Role::Candidate,
        step_of(c.nodes[id as int], e).0.role == Role::Leader,
        step_of(c.nodes[id as int], e).0.current_term == c.nodes[id as int].current_term,
    ensures
        !h.lt.contains_key(c.nodes[id as int].current_term),
{
    let s = c.nodes[id as int];
    let s2 = step_of(s, e).0;
    let t2 = s2.current_term;
    let g2 = ghost_after(g, id, s2);
    let c2 = step_node(c, id, e);
    let n = c.nodes.len();
    lemma_step_node(c, g, id, e);
    assert(c2.nodes[id as int] == s2);
    assert(node_ok(c2, g2, id as int));
    assert(node_safe(c, h, id as int));
    if h.lt.contains_key(t2) {
        assert(leader_ok(c, g, h, t2));
        let l = h.ldr[t2];
        assert(l != id);
        let a = h.ev[t2];
        let b = s2.votes_received;
        crate::cluster_model::lemma_ids_below(n);
        assert(b.subset_of(ids_below(n)));
        vstd::set_lib::lemma_len_subset(a, ids_below(n));
        vstd::set_lib::lemma_len_subset(b, ids_below(n));
        assert(a.disjoint(b)) by {
            assert forall|w: NodeId| a.contains(w) implies !b.contains(w) by {
                assert(g.votes.contains_key((w, t2)) && g.votes[(w, t2)] == l);
                assert(g2.votes[(w, t2)] == l);
            }
        }
        vstd::set_lib::lemma_set_disjoint_lens(a, b);
        assert((a + b).subset_of(ids_below(n)));
        vstd::set_lib::lemma_len_subset(a + b, ids_below(n));
        assert(s2.peers.len() == n - 1);
        assert(quorum_of(s2) == majority(n));
        assert(false);
    }
}

/// A vote request keeps the safety invariant: a granted vote records the
/// voter's log, which the request's candidate is at least as up-to-date as.
pub proof fn lemma_request_vote_safe(c: ClusterView, g: ClusterGhost, h: History, id: NodeId, from: NodeId, req: RequestVote)
    requires
        step_base(c, g, h, id, EventView::Message { from, message: MessageView::RequestVote(req) }),
    ensures
        step_ctx(c, g, h, id, EventView::Message { from, message: MessageView::RequestVote(req) }),
        own_ok(c, g, h, id, EventView::Message { from, message: MessageView::RequestVote(req) }),
{
    let e = EventView::Message { from, message: MessageView::RequestVote(req) };
    let s = c.nodes[id as int];
    let (s2, acts) = step_of(s, e);
    let t2 = s2.current_term;
    let g2 = ghost_after(g, id, s2);
    let h2 = history_after(h, id, s, e);
    let c2 = step_node(c, id, e);
    let n = c.nodes.len();
    let s1 = observe_term_of(s, req.term);
    assert(node_ok(c, g, id as int));
    assert(node_safe(c, h, id as int));
    lemma_extends_self(s.log);
    assert(s2.log == s.log);
    assert(s2.role == s1.role);
    if s1.voted_for is Some {
        assert(s1 == s);
        assert(h.vlog.contains_key((id, t2)));
    }
    assert(step_ctx(c, g, h, id, e));
    lemma_step_cluster(c, g, id, e);
    lemma_step_grows(c, g, h, id, e);
    lemma_own_same_log(c, g, h, id, e);
    assert(c2.nodes[id as int] == s2);
    if s2.role == Role::Leader {
        assert(s1 == s);
        assert(progress_ok(h2, s2)) by {
            assert forall|p: NodeId| #[trigger] crate::node_model::match_of(s2, p) <= ack_of(h2, p, t2) by {
                assert(crate::node_model::match_of(s, p) <= ack_of(h, p, t2));
            }
        }
    }
    if s2.role == Role::Candidate {
        assert(s1 == s);
    }
    assert(node_safe(c2, h2, id as int));
    if s2.role == Role::Leader {
        lemma_leader_ok_continuing(c, g, h, id, e);
    }
    if s2.voted_for is Some && !h.vlog.contains_key((id, t2)) {
        assert(s1.voted_for is None);
        assert(crate::node_model::grants_vote(s1, req));
        lemma_grows_matches(h, h2, s.log);
        assert(req.term == t2);
        assert(h.vlog.contains_key((from, t2)));
        assert(g.votes.contains_key((from, t2)));
        assert(from != id);
        assert(vote_ok(g2, h2, id, t2));
    }
    lemma_own_acks_same(c, g, h, id, e);
    assert forall|k: int| 0 <= k < acts.len() implies match #[trigger] acts[k] {
        ActionView::Send { to, message } => msg_safe(g2, h2, n, id, to, message),
        ActionView::Apply { .. } => true,
    } by {
        assert(acts.len() == 1);
    }
}

/// A vote reply keeps the safety invariant; one that completes a majority
/// makes the candidate leader of a term nobody led, recorded with its voters.
pub proof fn lemma_vote_reply_safe(c: ClusterView, g: ClusterGhost, h: History, id: NodeId, from: NodeId, r: RequestVoteReply)
    requires
        step_base(c, g, h, id, EventView::Message { from, message: MessageView::RequestVoteReply(r) }),
    ensures
        step_ctx(c, g, h, id, EventView::Message { from, message: MessageView::RequestVoteReply(r) }),
        own_ok(c, g, h, id, EventView::Message { from, message: MessageView::RequestVoteReply(r) }),
{
    let e = EventView::Message { from, message: MessageView::RequestVoteReply(r) };
    let s = c.nodes[id as int];
    let (s2, acts) = step_of(s, e);
    let t2 = s2.current_term;
    let g2 = ghost_after(g, id, s2);
    let h2 = history_after(h, id, s, e);
    let c2 = step_node(c, id, e);
    let n = c.nodes.len();
    let s1 = observe_term_of(s, r.term);
    assert(node_ok(c, g, id as int));
    assert(node_safe(c, h, id as int));
    lemma_extends_self(s.log);
    assert(s2.log == s.log);
    if s1.voted_for is Some {
        assert(s1 == s);
        assert(h.vlog.contains_key((id, t2)));
    }
    if s1.role == Role::Candidate && r.term == s1.current_term && r.vote_granted {
        assert(s1 == s);
        let s2b = NodeView { votes_received: s1.votes_received.insert(from), ..s1 };
        if s2b.votes_received.len() >= quorum_of(s2b) {
            assert(s2 == become_leader_of(s2b).0);
            lemma_no_second_leader(c, g, h, id, e);
            assert(step_ctx(c, g, h, id, e));
            lemma_step_cluster(c, g, id, e);
            lemma_step_grows(c, g, h, id, e);
            lemma_own_same_log(c, g, h, id, e);
            assert(c2.nodes[id as int] == s2);
            assert(s.log.len() + 2 < u64::MAX) by {
                assert(crate::node_laws::log_bounded(s, g.budget));
            }
            if s.log.len() > 0 {
                assert(s.log[s.log.len() - 1].index == s.log.len());
            }
            assert(progress_ok(h2, s2));
            assert(node_safe(c2, h2, id as int));
            lemma_leader_ok_elected(c, g, h, id, e);
            assert(forall|t: Term, m: int| #[trigger] valid_pair(h2, t, m) && ack_of(h2, id, t) >= m
                ==> valid_pair(h, t, m) && ack_of(h, id, t) >= m) by {
                assert forall|t: Term, m: int| #[trigger] valid_pair(h2, t, m) && ack_of(h2, id, t) >= m
                    implies valid_pair(h, t, m) && ack_of(h, id, t) >= m by {
                    if t == t2 {
                        assert(crate::history::backed(h, s.log, m - 1));
                        assert(false);
                    }
                }
            }
            lemma_own_acks_same(c, g, h, id, e);
            lemma_election_voters(c, g, h, id, e);
            assert(node_ok(c2, g2, id as int));
            lemma_leader_broadcast(c2, g2, h2, id);
            return;
        }
    }
    assert(s2.role != Role::Leader || s1 == s);
    assert(step_ctx(c, g, h, id, e));
    lemma_step_cluster(c, g, id, e);
    lemma_step_grows(c, g, h, id, e);
    lemma_own_same_log(c, g, h, id, e);
    assert(c2.nodes[id as int] == s2);
    if s2.role == Role::Leader {
        assert(progress_ok(h2, s2)) by {
            assert forall|p: NodeId| #[trigger] crate::node_model::match_of(s2, p) <= ack_of(h2, p, t2) by {
                assert(crate::node_model::match_of(s, p) <= ack_of(h, p, t2));
            }
        }
    }
    if s2.role == Role::Candidate {
        assert(s1 == s);
    }
    assert(node_safe(c2, h2, id as int));
    if s2.role == Role::Leader {
        lemma_leader_ok_continuing(c, g, h, id, e);
    }
    lemma_own_acks_same(c, g, h, id, e);
    assert(acts.len() == 0);
}

/// An AppendEntries reply keeps the safety invariant: a success raises the
/// follower's match index no higher than it acknowledged and the leader
/// commits on a majority, a failure resends a slice of the leader's log.
pub proof fn lemma_append_reply_safe(c: ClusterView, g: ClusterGhost, h: History, id: NodeId, from: NodeId, r: AppendEntriesReply)
    requires
        step_base(c, g, h, id, EventView::Message { from, message: MessageView::AppendEntriesReply(r) }),
    ensures
        step_ctx(c, g, h, id, EventView::Message { from, message: MessageView::AppendEntriesReply(r) }),
        own_ok(c, g, h, id, EventView::Message { from, message: MessageView::AppendEntriesReply(r) }),
{
    let e = EventView::Message { from, message: MessageView::AppendEntriesReply(r) };
    let s = c.nodes[id as int];
    let (s2, acts) = step_of(s, e);
    let t2 = s2.current_term;
    let g2 = ghost_after(g, id, s2);
    let h2 = history_after(h, id, s, e);
    let c2 = step_node(c, id, e);
    let n = c.nodes.len();
    let s1 = observe_term_of(s, r.term);
    assert(node_ok(c, g, id as int));
    assert(node_safe(c, h, id as int));
    lemma_extends_self(s.log);
    if s1.voted_for is Some {
        assert(s1 == s);
        assert(h.vlog.contains_key((id, t2)));
    }
    if s1.role == Role::Leader && r.term == s1.current_term {
        assert(s1 == s);
        assert(h.lt.contains_key(t2));
        crate::node_laws::lemma_step_term(s, e);
        if r.success {
            let s3 = NodeView {
                match_index: s1.match_index.insert(from, r.match_index),
                next_index: s1.next_index.insert(from, (r.match_index + 1) as u64),
                ..s1
            };
            crate::node_model::lemma_advance_commit_wf(s3);
            crate::node_laws::lemma_advance_commit_applies(s3);
            crate::node_laws::lemma_advance_commit_quiet(s3);
            assert(s2 == advance_commit_of(s3).0);
            assert(s2.log == s.log);
            assert(step_ctx(c, g, h, id, e));
            lemma_step_cluster(c, g, id, e);
            lemma_step_grows(c, g, h, id, e);
            assert(c2.nodes[id as int] == s2);
            assert(r.match_index <= ack_of(h, from, t2));
            assert(ack_of(h, from, t2) <= s.log.len()) by {
                if h.acks.contains_key((from, t2)) {
                    assert(crate::history::acked_ok(c, h, (from, t2)));
                }
            }
            assert(progress_ok(h2, s2)) by {
                assert forall|p: NodeId| #[trigger] crate::node_model::match_of(s2, p) <= ack_of(h2, p, t2) by {
                    if p != from {
                        assert(crate::node_model::match_of(s2, p) == crate::node_model::match_of(s, p));
                        assert(crate::node_model::match_of(s, p) <= ack_of(h, p, t2));
                    }
                }
            }
            crate::safety_own::lemma_own_applied(c, g, h, id, e);
            if s2.commit_index > s.commit_index {
                crate::safety_commit::lemma_leader_commit(h2, n, s2, s2.commit_index);
                assert(crate::history::committed(h2, n, t2, s2.commit_index as int));
            } else {
                lemma_grows_certified(h, h2, n, s.current_term, t2, s.commit_index as int, s.log, s2.log);
            }
            lemma_grows_matches(h, h2, s.log);
            assert(node_safe(c2, h2, id as int));
            lemma_leader_ok_continuing(c, g, h, id, e);
            lemma_own_acks_same(c, g, h, id, e);
            crate::node_laws::lemma_applies_of_applies(acts);
            assert forall|k: int| 0 <= k < acts.len() implies match #[trigger] acts[k] {
                ActionView::Send { to, message } => msg_safe(g2, h2, n, id, to, message),
                ActionView::Apply { .. } => true,
            } by {
                assert(acts[k] is Apply);
            }
        } else {
            assert(s2.log == s.log);
            assert(step_ctx(c, g, h, id, e));
            lemma_step_cluster(c, g, id, e);
            lemma_step_grows(c, g, h, id, e);
            lemma_own_same_log(c, g, h, id, e);
            assert(c2.nodes[id as int] == s2);
            assert(progress_ok(h2, s2)) by {
                assert forall|p: NodeId| #[trigger] crate::node_model::match_of(s2, p) <= ack_of(h2, p, t2) by {
                    assert(crate::node_model::match_of(s, p) <= ack_of(h, p, t2));
                }
            }
            assert(node_safe(c2, h2, id as int));
            lemma_leader_ok_continuing(c, g, h, id, e);
            lemma_own_acks_same(c, g, h, id, e);
            assert(from != id);
            lemma_is_peer(n, id, from);
            assert(node_ok(c2, g2, id as int));
            lemma_leader_request(c2, g2, h2, id, from);
            assert(acts == seq![ActionView::Send { to: from, message: append_entries_for(s2, from) }]);
        }
    } else {
        assert(s2 == s1);
        assert(s2.role != Role::Leader || s1 == s);
        assert(step_ctx(c, g, h, id, e));
        lemma_step_cluster(c, g, id, e);
        lemma_step_grows(c, g, h, id, e);
        lemma_own_same_log(c, g, h, id, e);
        assert(c2.nodes[id as int] == s2);
        if s2.role == Role::Leader {
            assert(progress_ok(h2, s2)) by {
                assert forall|p: NodeId| #[trigger] crate::node_model::match_of(s2, p) <= ack_of(h2, p, t2) by {
                    assert(crate::node_model::match_of(s, p) <= ack_of(h, p, t2));
                }
            }
        }
        assert(node_safe(c2, h2, id as int));
        if s2.role == Role::Leader {
            lemma_leader_ok_continuing(c, g, h, id, e);
        }
        lemma_own_acks_same(c, g, h, id, e);
        assert(acts.len() == 0);
    }
}

} // verus!
