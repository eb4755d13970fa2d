//! The safety invariant across a tick: heartbeats, the passing of time and
//! the start of an election.
use vstd::prelude::*;

use crate::cluster_model::{
    cluster_inv, event_ok, ghost_after, node_ok, step_node, ClusterGhost, ClusterView,
};
use crate::event::EventView;
use crate::history::{
    ack_of, leader_ok, msg_safe, node_safe, progress_ok, safety_inv, valid_pair, vote_ok, History,
};
use crate::history_frame::{extends, history_after, lemma_grows_matches};
use crate::node_model::{become_leader_of, broadcast_of, step_of, vote_requests_of, NodeView};
use crate::safety_elect::{lemma_election_voters, lemma_leader_ok_continuing, lemma_leader_ok_elected};
use crate::safety_frame::{lemma_step_cluster, lemma_step_grows, own_ok, step_ctx};
use crate::safety_own::{lemma_leader_broadcast, lemma_own_acks_same, lemma_own_same_log};
use crate::types::{NodeId, Role, Term};

verus! {

/// What the node step lemmas start from: both invariants, an acceptable
/// event, and an incoming message that agrees with the history.
pub open spec fn step_base(c: ClusterView, g: ClusterGhost, h: History, id: NodeId, e: EventView) -> bool {
    &&& cluster_inv(c, g)
    &&& safety_inv(c, g, h)
    &&& id < c.nodes.len()
    &&& event_ok(c, g, id, e)
    &&& e matches EventView::Message { from, message } ==> msg_safe(g, h, c.nodes.len(), from, id, message)
}

/// Every log extends itself.
pub proof fn lemma_extends_self(log: Seq<crate::log::LogEntryView>)
    ensures
        extends(log, log),
{
    assert(log.subrange(0, log.len() as int) =~= log);
}

/// A tick keeps the safety invariant: a leader's heartbeat sends slices of
/// its own log, a timeout records the candidate's vote and log (or, alone,
/// makes it leader of a term nobody led).
pub proof fn lemma_tick_safe(c: ClusterView, g: ClusterGhost, h: History, id: NodeId)
    requires
        step_base(c, g, h, id, EventView::Tick),
    ensures
        step_ctx(c, g, h, id, EventView::Tick),
        own_ok(c, g, h, id, EventView::Tick),
{
    let e = EventView::Tick;
    let s = c.nodes[id as int];
    let (s2, acts) = step_of(s, e);
    let t2 = s2.current_term;
    let g2 = ghost_after(g, id, s2);
    let h2 = history_after(h, id, s, e);
    let c2 = step_node(c, id, e);
    let n = c.nodes.len();
    assert(node_ok(c, g, id as int));
    assert(node_safe(c, h, id as int));
    lemma_extends_self(s.log);
    if s.role == Role::Leader {
        assert(h.lt.contains_key(t2));
        assert(s.voted_for == Some(id));
        assert(h.vlog.contains_key((id, t2)));
        assert(step_ctx(c, g, h, id, e));
        lemma_step_cluster(c, g, id, e);
        lemma_step_grows(c, g, h, id, e);
        lemma_own_same_log(c, g, h, id, e);
        assert(c2.nodes[id as int] == s2);
        assert(progress_ok(h2, s2)) by {
            assert forall|p: NodeId| #[trigger] crate::node_model::match_of(s2, p) <= ack_of(h2, p, t2) by {
                assert(crate::node_model::match_of(s, p) <= ack_of(h, p, t2));
            }
        }
        assert(node_safe(c2, h2, id as int));
        lemma_leader_ok_continuing(c, g, h, id, e);
        lemma_own_acks_same(c, g, h, id, e);
        assert(node_ok(c2, g2, id as int));
        lemma_leader_broadcast(c2, g2, h2, id);
        let hb: u32 = (s.heartbeat_elapsed + 1) as u32;
        if hb >= s.heartbeat_timeout {
            assert(acts == broadcast_of(s2));
        } else {
            assert(acts.len() == 0);
        }
    } else {
        let ee: u32 = (s.election_elapsed + 1) as u32;
        let s0 = NodeView { election_elapsed: ee, ..s };
        if ee >= s.election_timeout {
            let s1 = NodeView {
                current_term: (s0.current_term + 1) as u64,
                role: Role::Candidate,
                voted_for: Some(s0.id),
                votes_received: Set::empty().insert(s0.id),
                election_elapsed: 0,
                leader_id: None,
                ..s0
            };
            assert(t2 == s.current_term + 1);
            assert(!h.vlog.contains_key((id, t2)));
            if h.lt.contains_key(t2) {
                assert(leader_ok(c, g, h, t2));
                if s.peers.len() == 0 {
                    assert(n == 1);
                    assert(h.ldr[t2] == id);
                }
            }
            if s.peers.len() == 0 {
                assert(n == 1);
                assert(s2 == become_leader_of(s1).0);
                assert(!h.lt.contains_key(t2)) by {
                    if h.lt.contains_key(t2) {
                        assert(h.ldr[t2] < 1);
                    }
                }
                assert(step_ctx(c, g, h, id, e));
                lemma_step_cluster(c, g, id, e);
                lemma_step_grows(c, g, h, id, e);
                lemma_own_same_log(c, g, h, id, e);
                assert(c2.nodes[id as int] == s2);
                assert(node_safe(c2, h2, id as int));
                lemma_leader_ok_elected(c, g, h, id, e);
                lemma_grows_matches(h, h2, s.log);
                assert(vote_ok(g2, h2, id, t2));
                assert(forall|t: Term, m: int| #[trigger] valid_pair(h2, t, m) && ack_of(h2, id, t) >= m
                    ==> valid_pair(h, t, m) && ack_of(h, id, t) >= m) by {
                    assert forall|t: Term, m: int| #[trigger] valid_pair(h2, t, m) && ack_of(h2, id, t) >= m
                        implies valid_pair(h, t, m) && ack_of(h, id, t) >= m by {
                        if t == t2 {
                            assert(s.log[m - 1].term <= s.current_term);
                            assert(false);
                        }
                    }
                }
                lemma_own_acks_same(c, g, h, id, e);
                lemma_election_voters(c, g, h, id, e);
                assert(acts.len() == 0);
            } else {
                assert(s2 == s1);
                assert(step_ctx(c, g, h, id, e));
                lemma_step_cluster(c, g, id, e);
                lemma_step_grows(c, g, h, id, e);
                lemma_own_same_log(c, g, h, id, e);
                assert(c2.nodes[id as int] == s2);
                assert(node_safe(c2, h2, id as int));
                lemma_grows_matches(h, h2, s.log);
                assert(vote_ok(g2, h2, id, t2));
                lemma_own_acks_same(c, g, h, id, e);
                assert(acts == vote_requests_of(s1));
                assert forall|k: int| 0 <= k < acts.len() implies match #[trigger] acts[k] {
                    crate::event::ActionView::Send { to, message } => msg_safe(g2, h2, n, id, to, message),
                    crate::event::ActionView::Apply { .. } => true,
                } by {
                }
            }
        } else {
            assert(s2 == s0);
            if s.voted_for is Some {
                assert(h.vlog.contains_key((id, t2)));
            }
            assert(step_ctx(c, g, h, id, e));
            lemma_step_cluster(c, g, id, e);
            lemma_step_grows(c, g, h, id, e);
            lemma_own_same_log(c, g, h, id, e);
            assert(c2.nodes[id as int] == s2);
            assert(node_safe(c2, h2, id as int));
            lemma_own_acks_same(c, g, h, id, e);
        }
    }
}

} // verus!
