//! The safety invariant across a leader's own steps: a proposal appended to
//! its log, and the commit that follows acknowledgements.
use vstd::prelude::*;

use crate::cluster_model::{ghost_after, node_ok, step_node, ClusterGhost, ClusterView};
use crate::event::{ActionView, EventView};
use crate::history::{
    ack_kept, ack_of, backed, certified, has_prefix, holds, later_hold, matches_leaders,
    node_safe, progress_ok, terms_at_most, valid_pair, History,
};
use crate::history_frame::{
    extends, history_after, lemma_extends_prefix, lemma_grows_certified, lemma_grows_pair,
};
use crate::log::LogEntryView;
use crate::node_laws::contiguous;
use crate::node_model::{broadcast_of, step_of, NodeView};
use crate::safety_elect::lemma_leader_ok_continuing;
use crate::safety_frame::{
    lemma_later_hold_shrinks, lemma_step_cluster, lemma_step_grows, own_ok, step_ctx,
};
use crate::safety_own::{lemma_leader_broadcast, lemma_own_applied};
use crate::safety_tick::{lemma_extends_self, step_base};
use crate::types::{NodeId, Role, Term};

verus! {

/// A leader that stays leader and only extends its log keeps what it
/// acknowledged: its own term's prefixes it holds by being that log.
pub proof fn lemma_own_acks_leader(c: ClusterView, g: ClusterGhost, h: History, id: NodeId, e: EventView)
    requires
        step_ctx(c, g, h, id, e),
        step_of(c.nodes[id as int], e).0.role == Role::Leader,
        h.lt.contains_key(step_of(c.nodes[id as int], e).0.current_term),
    ensures
        forall|t: Term, m: int| #[trigger]
            ack_kept(step_node(c, id, e), history_after(h, id, c.nodes[id as int], e), t, m, id),
{
    let s = c.nodes[id as int];
    let s2 = step_of(s, e).0;
    let t2 = s2.current_term;
    let h2 = history_after(h, id, s, e);
    let c2 = step_node(c, id, e);
    lemma_step_cluster(c, g, id, e);
    lemma_step_grows(c, g, h, id, e);
    assert(c2.nodes[id as int] == s2);
    assert forall|t: Term, m: int| #[trigger] ack_kept(c2, h2, t, m, id) by {
        if valid_pair(h2, t, m) && ack_of(h2, id, t) >= m && later_hold(h2, t, m, t2 as int) {
            if t == t2 {
                assert(h2.lt[t2] == s2.log);
            } else {
                if !valid_pair(h, t, m) {
                    crate::safety_frame::lemma_new_pair(c, g, h, id, e, t, m);
                }
                lemma_grows_pair(h, h2, t, m);
                lemma_later_hold_shrinks(c, g, h, id, e, t, m, s.current_term as int);
                assert(ack_kept(c, h, t, m, id));
                lemma_extends_prefix(s2.log, s.log, m);
            }
        }
    }
}

/// A leader's log after the step, extended by entries of its term with
/// consecutive indices, matches the leader logs after the step.
pub proof fn lemma_leader_log(c: ClusterView, g: ClusterGhost, h: History, id: NodeId, e: EventView)
    requires
        step_ctx(c, g, h, id, e),
        step_of(c.nodes[id as int], e).0.role == Role::Leader,
        h.lt.contains_key(step_of(c.nodes[id as int], e).0.current_term),
        contiguous(step_of(c.nodes[id as int], e).0.log),
    ensures
        matches_leaders(history_after(h, id, c.nodes[id as int], e), step_of(c.nodes[id as int], e).0.log),
        terms_at_most(step_of(c.nodes[id as int], e).0.log, step_of(c.nodes[id as int], e).0.current_term),
{
    let s = c.nodes[id as int];
    let s2 = step_of(s, e).0;
    let t2 = s2.current_term;
    let h2 = history_after(h, id, s, e);
    lemma_step_grows(c, g, h, id, e);
    assert(node_safe(c, h, id as int));
    assert forall|k: int| 0 <= k < s2.log.len() implies #[trigger] backed(h2, s2.log, k) by {
        if k < s.log.len() {
            assert(s2.log[k] == s2.log.subrange(0, s.log.len() as int)[k]);
            assert(backed(h, s.log, k));
            let tk = s.log[k].term;
            if tk == t2 {
                assert(h2.lt[t2] == s2.log);
            } else {
                assert(h2.lt[tk] == h.lt[tk]);
                assert(s2.log.subrange(0, k + 1) =~= s2.log.subrange(0, s.log.len() as int).subrange(0, k + 1));
                assert(s.log.subrange(0, k + 1) =~= s.log.subrange(0, s.log.len() as int).subrange(0, k + 1));
            }
        } else {
            assert(s2.log[k].term == t2);
            assert(h2.lt[t2] == s2.log);
        }
    }
    assert forall|k: int| 0 <= k < s2.log.len() implies #[trigger] s2.log[k].term <= t2 by {
        if k < s.log.len() {
            assert(s2.log[k] == s2.log.subrange(0, s.log.len() as int)[k]);
        }
    }
}

/// A proposal keeps the safety invariant: a leader appends an entry of its
/// term, which becomes the end of its leader log, and a lone leader commits
/// it on its own acknowledgement.
pub proof fn lemma_propose_safe(c: ClusterView, g: ClusterGhost, h: History, id: NodeId, command: Seq<u8>)
    requires
        step_base(c, g, h, id, EventView::Propose { command }),
    ensures
        step_ctx(c, g, h, id, EventView::Propose { command }),
        own_ok(c, g, h, id, EventView::Propose { command }),
{
    let e = EventView::Propose { command };
    let s = c.nodes[id as int];
    let (s2, acts) = step_of(s, e);
    let t2 = s2.current_term;
    let g2 = ghost_after(g, id, s2);
    let h2 = history_after(h, id, s, e);
    let c2 = step_node(c, id, e);
    let n = c.nodes.len();
    assert(node_ok(c, g, id as int));
    assert(node_safe(c, h, id as int));
    lemma_extends_self(s.log);
    if s.role == Role::Leader {
        let entry = LogEntryView {
            term: s.current_term,
            index: (crate::log::last_index_of(s.log) + 1) as u64,
            command,
        };
        let s1 = NodeView { log: s.log.push(entry), ..s };
        crate::node_laws::lemma_advance_commit_quiet(s1);
        crate::node_laws::lemma_step_term(s, e);
        assert(s2.log == s1.log) by {
            if s.peers.len() == 0 {
                crate::node_model::lemma_advance_commit_wf(s1);
            }
        }
        assert(t2 == s.current_term);
        assert(s2.role == Role::Leader);
        assert(s.voted_for == Some(id));
        assert(h.vlog.contains_key((id, t2)));
        assert(s2.log.subrange(0, s.log.len() as int) =~= s.log);
        if s.log.len() > 0 {
            assert(s.log[s.log.len() - 1].index == s.log.len());
        }
        assert(contiguous(s2.log));
        assert(step_ctx(c, g, h, id, e));
        lemma_step_cluster(c, g, id, e);
        lemma_step_grows(c, g, h, id, e);
        assert(c2.nodes[id as int] == s2);
        assert(node_ok(c2, g2, id as int));
        lemma_leader_log(c, g, h, id, e);
        crate::node_laws::lemma_step_commit(s, e);
        lemma_extends_prefix(s2.log, s.log, s.commit_index as int);
        assert(has_prefix(s2.log, s.log, s.commit_index as int));
        if s.peers.len() == 0 {
            crate::node_model::lemma_advance_commit_wf(s1);
            crate::node_laws::lemma_advance_commit_applies(s1);
        }
        assert(s2.commit_index <= s2.log.len()) by {
            if s2.commit_index > s.commit_index {
                assert(crate::node_model::committable(s2, s2.commit_index));
                assert(crate::log::term_at_of(s2.log, s2.commit_index) is Some);
            }
        }
        lemma_own_applied(c, g, h, id, e);
        assert(progress_ok(h2, s2)) by {
            assert forall|p: NodeId| #[trigger] crate::node_model::match_of(s2, p) <= ack_of(h2, p, t2) by {
                assert(crate::node_model::match_of(s, p) <= ack_of(h, p, t2));
            }
        }
        if s2.commit_index > s.commit_index {
            crate::safety_commit::lemma_leader_commit(h2, n, s2, s2.commit_index);
            assert(certified(h2, n, t2, s2.commit_index as int, s2.log)) by {
                assert(crate::history::committed(h2, n, t2, s2.commit_index as int));
            }
        } else {
            lemma_grows_certified(h, h2, n, s.current_term, t2, s.commit_index as int, s.log, s2.log);
        }
        assert(node_safe(c2, h2, id as int));
        lemma_leader_ok_continuing(c, g, h, id, e);
        lemma_own_acks_leader(c, g, h, id, e);
        if s.peers.len() == 0 {
            crate::node_laws::lemma_applies_of_applies(acts);
            assert forall|k: int| 0 <= k < acts.len() implies match #[trigger] acts[k] {
                ActionView::Send { to, message } => crate::history::msg_safe(g2, h2, n, id, to, message),
                ActionView::Apply { .. } => true,
            } by {
                assert(acts[k] is Apply);
            }
        } else {
            assert(s2 == s1);
            assert(acts == broadcast_of(s2));
            lemma_leader_broadcast(c2, g2, h2, id);
        }
    } else {
        assert(s2 == s);
        if s.voted_for is Some {
            assert(h.vlog.contains_key((id, t2)));
        }
        assert(step_ctx(c, g, h, id, e));
        lemma_step_cluster(c, g, id, e);
        lemma_step_grows(c, g, h, id, e);
        crate::safety_own::lemma_own_same_log(c, g, h, id, e);
        assert(c2.nodes[id as int] == s2);
        assert(node_safe(c2, h2, id as int));
        crate::safety_own::lemma_own_acks_same(c, g, h, id, e);
    }
}

} // verus!
