//! The parts of the safety invariant that the stepping node brings itself,
//! in the forms several kinds of step share.
use vstd::prelude::*;

use crate::cluster_model::{node_ok, peers_for, step_node, ClusterGhost, ClusterView};
use crate::event::{ActionView, EventView};
use crate::history::{
    ack_kept, ack_of, certified, has_prefix, holds, later_hold, matches_leaders, msg_safe,
    node_safe, progress_ok, terms_at_most, valid_pair, History,
};
use crate::history_frame::{
    history_after, lemma_grows_certified, lemma_grows_matches, lemma_grows_pair,
};
use crate::history_step::{lemma_record_apply_range, lemma_record_applies_of};
use crate::log::suffix_from;
use crate::node_laws::{contiguous, lemma_step_commit};
use crate::node_model::{append_entries_for, broadcast_of, step_of};
use crate::safety_frame::{
    lemma_later_hold_shrinks, lemma_step_cluster, lemma_step_grows, step_ctx,
};
use crate::types::{NodeId, Role, Term};

verus! {

/// The node's applied record after the step holds the entries of its new
/// log up to its new commit index, when the step keeps its committed prefix.
pub proof fn lemma_own_applied(c: ClusterView, g: ClusterGhost, h: History, id: NodeId, e: EventView)
    requires
        step_ctx(c, g, h, id, e),
        has_prefix(
            step_of(c.nodes[id as int], e).0.log,
            c.nodes[id as int].log,
            c.nodes[id as int].commit_index as int,
        ),
        step_of(c.nodes[id as int], e).0.commit_index <= step_of(c.nodes[id as int], e).0.log.len(),
        contiguous(step_of(c.nodes[id as int], e).0.log),
    ensures
        crate::history::applied_from(step_node(c, id, e).applied[id as int], step_of(c.nodes[id as int], e).0),
{
    let s = c.nodes[id as int];
    let (s2, acts) = step_of(s, e);
    let c2 = step_node(c, id, e);
    lemma_step_cluster(c, g, id, e);
    assert(node_ok(c, g, id as int));
    assert(node_safe(c, h, id as int));
    lemma_step_commit(s, e);
    let a = c.applied[id as int];
    lemma_record_applies_of(a, acts);
    lemma_record_apply_range(a, s2.log, s.commit_index as int, s2.commit_index as int);
    assert forall|i: crate::types::LogIndex| #[trigger] c2.applied[id as int].contains_key(i) implies 1 <= i
        <= s2.commit_index && c2.applied[id as int][i] == s2.log[i - 1].command by {
        if !(s.commit_index < i <= s2.commit_index) {
            assert(a.contains_key(i));
            assert(s2.log[i - 1] == s2.log.subrange(0, s.commit_index as int)[i - 1]);
            assert(s.log[i - 1] == s.log.subrange(0, s.commit_index as int)[i - 1]);
        }
    }
}

/// A step that keeps the node's log and commit index keeps its log facts.
pub proof fn lemma_own_same_log(c: ClusterView, g: ClusterGhost, h: History, id: NodeId, e: EventView)
    requires
        step_ctx(c, g, h, id, e),
        step_of(c.nodes[id as int], e).0.log == c.nodes[id as int].log,
        step_of(c.nodes[id as int], e).0.commit_index == c.nodes[id as int].commit_index,
    ensures
        ({
            let s = c.nodes[id as int];
            let s2 = step_of(s, e).0;
            let h2 = history_after(h, id, s, e);
            &&& matches_leaders(h2, s2.log)
            &&& terms_at_most(s2.log, s2.current_term)
            &&& s2.commit_index <= s2.log.len()
            &&& certified(h2, c.nodes.len(), s2.current_term, s2.commit_index as int, s2.log)
            &&& crate::history::applied_from(step_node(c, id, e).applied[id as int], s2)
        }),
{
    let s = c.nodes[id as int];
    let s2 = step_of(s, e).0;
    let h2 = history_after(h, id, s, e);
    assert(node_safe(c, h, id as int));
    lemma_step_grows(c, g, h, id, e);
    lemma_step_cluster(c, g, id, e);
    crate::node_laws::lemma_step_term(s, e);
    lemma_grows_matches(h, h2, s.log);
    lemma_grows_certified(
        h,
        h2,
        c.nodes.len(),
        s.current_term,
        s2.current_term,
        s.commit_index as int,
        s.log,
        s2.log,
    );
    lemma_own_applied(c, g, h, id, e);
}

/// A step that keeps the node's log, and adds no acknowledgement of a
/// valid pair, keeps what the node acknowledged.
pub proof fn lemma_own_acks_same(c: ClusterView, g: ClusterGhost, h: History, id: NodeId, e: EventView)
    requires
        step_ctx(c, g, h, id, e),
        step_of(c.nodes[id as int], e).0.log == c.nodes[id as int].log,
        forall|t: Term, m: int|
            #[trigger] valid_pair(history_after(h, id, c.nodes[id as int], e), t, m) && ack_of(
                history_after(h, id, c.nodes[id as int], e),
                id,
                t,
            ) >= m ==> valid_pair(h, t, m) && ack_of(h, id, t) >= m,
    ensures
        forall|t: Term, m: int| #[trigger]
            ack_kept(step_node(c, id, e), history_after(h, id, c.nodes[id as int], e), t, m, id),
{
    let s = c.nodes[id as int];
    let s2 = step_of(s, e).0;
    let h2 = history_after(h, id, s, e);
    let c2 = step_node(c, id, e);
    lemma_step_grows(c, g, h, id, e);
    lemma_step_cluster(c, g, id, e);
    crate::node_laws::lemma_step_term(s, e);
    assert forall|t: Term, m: int| #[trigger] ack_kept(c2, h2, t, m, id) by {
        assert(c2.nodes[id as int] == s2);
        if valid_pair(h2, t, m) && ack_of(h2, id, t) >= m && later_hold(h2, t, m, s2.current_term as int) {
            assert(valid_pair(h, t, m) && ack_of(h, id, t) >= m);
            lemma_grows_pair(h, h2, t, m);
            lemma_later_hold_shrinks(c, g, h, id, e, t, m, s.current_term as int);
            assert(ack_kept(c, h, t, m, id));
        }
    }
}

/// A leader's AppendEntries request to a peer agrees with the history once
/// the leader itself does.
pub proof fn lemma_leader_request(c2: ClusterView, g2: ClusterGhost, h2: History, id: NodeId, to: NodeId)
    requires
        node_safe(c2, h2, id as int),
        0 <= id < c2.nodes.len() <= u64::MAX,
        c2.nodes[id as int].role == Role::Leader,
        c2.nodes[id as int].id == id,
        c2.nodes[id as int].peers == peers_for(c2.nodes.len(), id),
        c2.nodes[id as int].peers.contains(to),
    ensures
        msg_safe(g2, h2, c2.nodes.len(), id, to, append_entries_for(c2.nodes[id as int], to)),
{
    let s = c2.nodes[id as int];
    let t = s.current_term;
    let ll = h2.lt[t];
    assert(ll == s.log);
    assert(progress_ok(h2, s));
    assert(s.next_index.contains_key(to));
    let next: u64 = s.next_index[to];
    assert(1 <= next <= s.log.len() + 1);
    let prev = (next - 1) as u64;
    let entries = suffix_from(s.log, next);
    assert(entries =~= ll.subrange(prev as int, prev + entries.len()));
    let k = choose|k: int| 0 <= k < s.peers.len() && s.peers[k] == to;
    assert(s.peers[k] == peers_for(c2.nodes.len(), id)[k]);
    if to == id {
        if k < id {
            assert(s.peers[k] == k);
        } else {
            assert(s.peers[k] == k + 1);
        }
        assert(false);
    }
}

/// Every message of a leader's broadcast agrees with the history.
pub proof fn lemma_leader_broadcast(c2: ClusterView, g2: ClusterGhost, h2: History, id: NodeId)
    requires
        node_safe(c2, h2, id as int),
        0 <= id < c2.nodes.len() <= u64::MAX,
        c2.nodes[id as int].role == Role::Leader,
        c2.nodes[id as int].id == id,
        c2.nodes[id as int].peers == peers_for(c2.nodes.len(), id),
    ensures
        forall|k: int|
            0 <= k < broadcast_of(c2.nodes[id as int]).len() ==> match #[trigger] broadcast_of(
                c2.nodes[id as int],
            )[k] {
                ActionView::Send { to, message } => msg_safe(g2, h2, c2.nodes.len(), id, to, message),
                ActionView::Apply { .. } => true,
            },
{
    let s = c2.nodes[id as int];
    assert forall|k: int| 0 <= k < broadcast_of(s).len() implies match #[trigger] broadcast_of(s)[k] {
        ActionView::Send { to, message } => msg_safe(g2, h2, c2.nodes.len(), id, to, message),
        ActionView::Apply { .. } => true,
    } by {
        assert(s.peers.contains(s.peers[k]));
        lemma_leader_request(c2, g2, h2, id, s.peers[k]);
    }
}

} // verus!
