//! What one node step leaves intact of the safety invariant: the other
//! nodes, the messages already in flight, the leaders, votes and
//! acknowledgements recorded before.
use vstd::prelude::*;

use crate::cluster_model::{
    cluster_inv, event_ok, ghost_after, ghost_grows, lemma_step_node, node_ok, step_node,
    ClusterGhost, ClusterView,
};
use crate::event::EventView;
use crate::history::{
    ack_kept, ack_of, acked_ok, first_lacking, holds, later_hold, leader_ok, msg_safe, node_safe,
    safety_inv, valid_pair, vote_kept, vote_ok, voters_outside, History,
};
use crate::history_frame::{
    extends, history_after, history_grows, lemma_extends_prefix, lemma_grows_certified,
    lemma_grows_matches, lemma_grows_msg, lemma_grows_pair,
};
use crate::history_step::lemma_dispatch_parts;
use crate::node_model::step_of;
use crate::types::{NodeId, Role, Term};

verus! {

/// The conditions under which the frame lemmas apply to node `id` taking
/// event `e`: the invariants hold, the event is acceptable, a node that is
/// leader after the step of a term already led was its leader before and
/// only extended its log, and a first vote in a term leaves the log alone.
pub open spec fn step_ctx(c: ClusterView, g: ClusterGhost, h: History, id: NodeId, e: EventView) -> bool {
    let s = c.nodes[id as int];
    let s2 = step_of(s, e).0;
    let t2 = s2.current_term;
    &&& cluster_inv(c, g)
    &&& safety_inv(c, g, h)
    &&& id < c.nodes.len()
    &&& event_ok(c, g, id, e)
    &&& s2.role == Role::Leader && h.lt.contains_key(t2) ==> {
        &&& s.role == Role::Leader
        &&& s.current_term == t2
        &&& extends(s2.log, s.log)
        &&& forall|k: int| s.log.len() <= k < s2.log.len() ==> #[trigger] s2.log[k].term == t2
    }
    &&& s2.role == Role::Leader && !h.lt.contains_key(t2) ==> s2.log == s.log
    &&& s2.voted_for is Some && !h.vlog.contains_key((id, t2)) ==> s2.log == s.log
}

/// The history grows with the step.
pub proof fn lemma_step_grows(c: ClusterView, g: ClusterGhost, h: History, id: NodeId, e: EventView)
    requires
        step_ctx(c, g, h, id, e),
    ensures
        history_grows(h, history_after(h, id, c.nodes[id as int], e)),
{
    let s = c.nodes[id as int];
    let s2 = step_of(s, e).0;
    let t2 = s2.current_term;
    let h2 = history_after(h, id, s, e);
    assert(node_safe(c, h, id as int));
    assert forall|t: Term| #[trigger] h.lt.contains_key(t) implies {
        &&& h2.lt.contains_key(t)
        &&& extends(h2.lt[t], h.lt[t])
        &&& h2.ldr[t] == h.ldr[t]
        &&& h2.ev[t] == h.ev[t]
    } by {
        assert(leader_ok(c, g, h, t));
        if s2.role == Role::Leader && t == t2 {
        } else {
            assert(h2.lt[t] == h.lt[t]);
            assert(h.lt[t].subrange(0, h.lt[t].len() as int) =~= h.lt[t]);
        }
    }
    assert forall|v: NodeId, t: Term| #[trigger] ack_of(h2, v, t) >= ack_of(h, v, t) by {
        if v == id && t == t2 {
            if h.acks.contains_key((id, t2)) {
                assert(h.lt.contains_key(t2));
                assert(h.acks[(id, t2)] <= h.lt[t2].len());
            }
        }
    }
}

/// The cluster after the step: node `id` in its new state, the queue and
/// its applied record grown by its actions.
pub proof fn lemma_step_cluster(c: ClusterView, g: ClusterGhost, id: NodeId, e: EventView)
    requires
        cluster_inv(c, g),
        id < c.nodes.len(),
        event_ok(c, g, id, e),
    ensures
        ({
            let s = c.nodes[id as int];
            let (s2, acts) = step_of(s, e);
            let c2 = step_node(c, id, e);
            &&& cluster_inv(c2, ghost_after(g, id, s2))
            &&& ghost_grows(g, ghost_after(g, id, s2))
            &&& c2.nodes == c.nodes.update(id as int, s2)
            &&& crate::history_step::queue_grows_by(c, c2, id, acts)
            &&& c2.applied == c.applied.update(
                id as int,
                crate::history_step::record_applies(c.applied[id as int], acts),
            )
            &&& crate::node_model::step_in_range(s, e)
        }),
{
    lemma_step_node(c, g, id, e);
    let s = c.nodes[id as int];
    let (s2, acts) = step_of(s, e);
    let c1 = ClusterView { nodes: c.nodes.update(id as int, s2), ..c };
    lemma_dispatch_parts(c1, id, acts);
}

/// Every other node keeps agreeing with the history.
pub proof fn lemma_step_others(c: ClusterView, g: ClusterGhost, h: History, id: NodeId, e: EventView)
    requires
        step_ctx(c, g, h, id, e),
    ensures
        forall|i: int|
            0 <= i < c.nodes.len() && i != id ==> #[trigger] node_safe(
                step_node(c, id, e),
                history_after(h, id, c.nodes[id as int], e),
                i,
            ),
{
    let s = c.nodes[id as int];
    let s2 = step_of(s, e).0;
    let t2 = s2.current_term;
    let g2 = ghost_after(g, id, s2);
    let h2 = history_after(h, id, s, e);
    let c2 = step_node(c, id, e);
    let n = c.nodes.len();
    lemma_step_cluster(c, g, id, e);
    lemma_step_grows(c, g, h, id, e);
    crate::cluster_model::lemma_one_leader_per_term(c2, g2);
    assert forall|i: int| 0 <= i < n && i != id implies #[trigger] node_safe(c2, h2, i) by {
        assert(node_safe(c, h, i));
        let si = c.nodes[i];
        assert(c2.nodes[i] == si);
        assert(c2.applied[i] == c.applied[i]);
        lemma_grows_matches(h, h2, si.log);
        assert(si.log.subrange(0, si.commit_index as int) =~= si.log.subrange(0, si.commit_index as int));
        lemma_grows_certified(h, h2, n, si.current_term, si.current_term, si.commit_index as int, si.log, si.log);
        if si.role == Role::Candidate {
            if h.lt.contains_key(si.current_term) {
                assert(h2.ldr[si.current_term] == h.ldr[si.current_term]);
            }
        }
        if si.role == Role::Leader {
            let ti = si.current_term;
            if s2.role == Role::Leader && t2 == ti {
                assert(c2.nodes[id as int].role == Role::Leader);
                assert(c2.nodes[i].role == Role::Leader);
                assert(false);
            }
            assert(h2.lt[ti] == h.lt[ti]);
            assert(ack_of(h2, i as u64, ti) == ack_of(h, i as u64, ti));
            assert forall|p: NodeId| #[trigger] crate::node_model::match_of(si, p) <= ack_of(h2, p, ti) by {
                assert(crate::node_model::match_of(si, p) <= ack_of(h, p, ti));
            }
        }
    }
}

/// What the step adds to a leader log are entries of that leader's term, so
/// a later leader log that holds a prefix of an earlier term's log after
/// the step held it before.
pub proof fn lemma_hold_shrinks(c: ClusterView, g: ClusterGhost, h: History, id: NodeId, e: EventView, t: Term, m: int, w: Term)
    requires
        step_ctx(c, g, h, id, e),
        valid_pair(h, t, m),
        h.lt.contains_key(w),
        t < w,
        holds(history_after(h, id, c.nodes[id as int], e), t, m, history_after(h, id, c.nodes[id as int], e).lt[w]),
    ensures
        holds(h, t, m, h.lt[w]),
{
    let s = c.nodes[id as int];
    let s2 = step_of(s, e).0;
    let h2 = history_after(h, id, s, e);
    lemma_step_grows(c, g, h, id, e);
    lemma_grows_pair(h, h2, t, m);
    if s2.role == Role::Leader && w == s2.current_term {
        assert(node_safe(c, h, id as int));
        assert(h.lt[w] == s.log);
        if m > s.log.len() {
            assert(s2.log[m - 1] == s2.log.subrange(0, m)[m - 1]);
            assert(s2.log[m - 1].term == w);
            assert(h.lt[t][m - 1] == h.lt[t].subrange(0, m)[m - 1]);
        } else {
            lemma_extends_prefix(s2.log, s.log, m);
        }
    }
}

/// The valid pairs the step adds belong to the term of a node that is
/// leader after it and extends its log, past every acknowledgement made
/// before, and no other node has acknowledged them.
pub proof fn lemma_new_pair(c: ClusterView, g: ClusterGhost, h: History, id: NodeId, e: EventView, t: Term, m: int)
    requires
        step_ctx(c, g, h, id, e),
        valid_pair(history_after(h, id, c.nodes[id as int], e), t, m),
        !valid_pair(h, t, m),
    ensures
        t == step_of(c.nodes[id as int], e).0.current_term,
        step_of(c.nodes[id as int], e).0.role == Role::Leader,
        forall|w: NodeId| #[trigger] ack_of(h, w, t) < m,
        forall|w: NodeId| w != id ==> #[trigger] ack_of(history_after(h, id, c.nodes[id as int], e), w, t) < m,
{
    let s = c.nodes[id as int];
    let s2 = step_of(s, e).0;
    let t2 = s2.current_term;
    let h2 = history_after(h, id, s, e);
    lemma_step_grows(c, g, h, id, e);
    lemma_step_cluster(c, g, id, e);
    assert(node_safe(c, h, id as int));
    if !(s2.role == Role::Leader && t == t2) {
        assert(h2.lt[t] == h.lt[t]);
        assert(false);
    }
    if h.lt.contains_key(t2) {
        assert(h.lt[t2] == s.log);
        if m <= s.log.len() {
            lemma_extends_prefix(s2.log, s.log, m);
            assert(s2.log[m - 1] == s2.log.subrange(0, m)[m - 1]);
            assert(s.log[m - 1] == s.log.subrange(0, m)[m - 1]);
            assert(false);
        }
        assert forall|w: NodeId| #[trigger] ack_of(h, w, t) < m by {
            if h.acks.contains_key((w, t)) {
                assert(h.acks[(w, t)] <= h.lt[t].len());
            }
        }
    } else {
        assert(crate::history::backed(h, s.log, m - 1));
        assert(false);
    }
}

/// Holding a prefix of an earlier term after the step implies holding it
/// before, for every later leader up to `hi`.
pub proof fn lemma_later_hold_shrinks(c: ClusterView, g: ClusterGhost, h: History, id: NodeId, e: EventView, t: Term, m: int, hi: int)
    requires
        step_ctx(c, g, h, id, e),
        valid_pair(h, t, m),
        later_hold(history_after(h, id, c.nodes[id as int], e), t, m, hi),
    ensures
        later_hold(h, t, m, hi),
{
    let h2 = history_after(h, id, c.nodes[id as int], e);
    lemma_step_grows(c, g, h, id, e);
    lemma_grows_pair(h, h2, t, m);
    assert forall|u: Term| h.lt.contains_key(u) && t < u <= hi implies holds(h, t, m, h.lt[u]) by {
        assert(h2.lt.contains_key(u));
        assert(holds(h2, t, m, h2.lt[u]));
        lemma_hold_shrinks(c, g, h, id, e, t, m, u);
    }
}

/// The messages in flight, the leaders and votes recorded before, and the
/// acknowledgements of other nodes keep agreeing with the history.
pub proof fn lemma_step_frame(c: ClusterView, g: ClusterGhost, h: History, id: NodeId, e: EventView)
    requires
        step_ctx(c, g, h, id, e),
    ensures
        ({
            let s = c.nodes[id as int];
            let s2 = step_of(s, e).0;
            let t2 = s2.current_term;
            let g2 = ghost_after(g, id, s2);
            let h2 = history_after(h, id, s, e);
            let c2 = step_node(c, id, e);
            let n = c.nodes.len();
            &&& forall|k: int|
                0 <= k < c.net.queue.len() ==> #[trigger] msg_safe(
                    g2,
                    h2,
                    n,
                    c2.net.queue[k].from,
                    c2.net.queue[k].to,
                    c2.net.queue[k].message,
                )
            &&& forall|t: Term|
                h.lt.contains_key(t) && !(s2.role == Role::Leader && t == t2) ==> #[trigger] leader_ok(
                    c2,
                    g2,
                    h2,
                    t,
                )
            &&& forall|k: (NodeId, Term)| #[trigger] h2.vlog.contains_key(k) <==> g2.votes.contains_key(k)
            &&& forall|v: NodeId, t: Term| #[trigger]
                h.vlog.contains_key((v, t)) ==> vote_ok(g2, h2, v, t)
            &&& forall|t: Term, m: int, v: NodeId, u: Term| #[trigger] vote_kept(h2, t, m, v, u)
            &&& forall|t: Term, m: int, v: NodeId|
                0 <= v < n && v != id ==> #[trigger] ack_kept(c2, h2, t, m, v)
        }),
{
    let s = c.nodes[id as int];
    let s2 = step_of(s, e).0;
    let t2 = s2.current_term;
    let g2 = ghost_after(g, id, s2);
    let h2 = history_after(h, id, s, e);
    let c2 = step_node(c, id, e);
    let n = c.nodes.len();
    lemma_step_cluster(c, g, id, e);
    lemma_step_grows(c, g, h, id, e);
    crate::node_laws::lemma_step_term(s, e);
    assert forall|k: int| 0 <= k < c.net.queue.len() implies #[trigger] msg_safe(
        g2,
        h2,
        n,
        c2.net.queue[k].from,
        c2.net.queue[k].to,
        c2.net.queue[k].message,
    ) by {
        assert(c2.net.queue[k] == c.net.queue[k]);
        lemma_grows_msg(g, g2, h, h2, n, c.net.queue[k].from, c.net.queue[k].to, c.net.queue[k].message);
    }
    assert forall|t: Term| h.lt.contains_key(t) && !(s2.role == Role::Leader && t == t2) implies #[trigger] leader_ok(
        c2,
        g2,
        h2,
        t,
    ) by {
        assert(leader_ok(c, g, h, t));
        assert(h2.lt[t] == h.lt[t]);
        lemma_grows_matches(h, h2, h.lt[t]);
        let l = h.ldr[t];
        assert(c2.nodes[l as int].current_term >= c.nodes[l as int].current_term);
        assert forall|w: NodeId| #[trigger] h2.ev[t].contains(w) implies g2.votes.contains_key((w, t))
            && g2.votes[(w, t)] == h2.ldr[t] by {
            assert(h.ev[t].contains(w));
        }
    }
    assert forall|k: (NodeId, Term)| #[trigger] h2.vlog.contains_key(k) <==> g2.votes.contains_key(k) by {
        assert(h.vlog.contains_key(k) <==> g.votes.contains_key(k));
    }
    assert forall|v: NodeId, t: Term| #[trigger] h.vlog.contains_key((v, t)) implies vote_ok(g2, h2, v, t) by {
        assert(vote_ok(g, h, v, t));
        assert(g.votes.contains_key((v, t)));
        let cand = g.votes[(v, t)];
        lemma_grows_matches(h, h2, h.vlog[(v, t)]);
    }
    assert forall|t: Term, m: int, v: NodeId, u: Term| #[trigger] vote_kept(h2, t, m, v, u) by {
        if valid_pair(h2, t, m) && ack_of(h2, v, t) >= m && h2.vlog.contains_key((v, u)) && t < u
            && later_hold(h2, t, m, u as int) {
            assert(g2.votes.contains_key((v, u)));
            assert(node_ok(c2, g2, id as int));
            if valid_pair(h, t, m) {
                lemma_grows_pair(h, h2, t, m);
                lemma_later_hold_shrinks(c, g, h, id, e, t, m, u as int);
                if ack_of(h, v, t) < m {
                    assert(v == id && t == t2);
                    assert(c2.nodes[id as int] == s2);
                    assert(false);
                }
                if h.vlog.contains_key((v, u)) {
                    assert(vote_kept(h, t, m, v, u));
                } else {
                    assert(v == id && u == t2);
                    assert(h2.vlog[(v, u)] == s.log);
                    lemma_later_hold_shrinks(c, g, h, id, e, t, m, s.current_term as int);
                    assert(ack_kept(c, h, t, m, id));
                }
            } else {
                lemma_new_pair(c, g, h, id, e, t, m);
                assert(v == id);
                assert(c2.nodes[id as int] == s2);
                assert(false);
            }
        }
    }
    assert forall|t: Term, m: int, v: NodeId| 0 <= v < n && v != id implies #[trigger] ack_kept(
        c2,
        h2,
        t,
        m,
        v,
    ) by {
        let sv = c.nodes[v as int];
        assert(c2.nodes[v as int] == sv);
        if valid_pair(h2, t, m) && ack_of(h2, v, t) >= m && later_hold(h2, t, m, sv.current_term as int) {
            if valid_pair(h, t, m) {
                lemma_grows_pair(h, h2, t, m);
                lemma_later_hold_shrinks(c, g, h, id, e, t, m, sv.current_term as int);
                assert(ack_kept(c, h, t, m, v));
            } else {
                lemma_new_pair(c, g, h, id, e, t, m);
            }
        }
    }
}

/// The voters of a first lacking leader stay outside, except for a leader
/// elected by this very step; acknowledgements other than the stepping
/// node's in its own term stay within their leader logs.
pub proof fn lemma_step_voters(c: ClusterView, g: ClusterGhost, h: History, id: NodeId, e: EventView)
    requires
        step_ctx(c, g, h, id, e),
    ensures
        ({
            let s = c.nodes[id as int];
            let s2 = step_of(s, e).0;
            let t2 = s2.current_term;
            let h2 = history_after(h, id, s, e);
            let c2 = step_node(c, id, e);
            &&& forall|t: Term, m: int, u: Term|
                !(u == t2 && s2.role == Role::Leader && !h.lt.contains_key(t2))
                    ==> #[trigger] voters_outside(c2, h2, t, m, u)
            &&& forall|k: (NodeId, Term)| #[trigger]
                h2.acks.contains_key(k) && k != (id, t2) ==> acked_ok(c2, h2, k)
        }),
{
    let s = c.nodes[id as int];
    let s2 = step_of(s, e).0;
    let t2 = s2.current_term;
    let g2 = ghost_after(g, id, s2);
    let h2 = history_after(h, id, s, e);
    let c2 = step_node(c, id, e);
    let n = c.nodes.len();
    lemma_step_cluster(c, g, id, e);
    lemma_step_grows(c, g, h, id, e);
    crate::node_laws::lemma_step_term(s, e);
    assert forall|t: Term, m: int, u: Term|
        !(u == t2 && s2.role == Role::Leader && !h.lt.contains_key(t2)) implies #[trigger] voters_outside(
        c2,
        h2,
        t,
        m,
        u,
    ) by {
        if first_lacking(h2, t, m, u) {
            assert(h.lt.contains_key(u));
            assert(leader_ok(c, g, h, u));
            assert(h2.ev[u] == h.ev[u]);
            if valid_pair(h, t, m) {
                lemma_grows_pair(h, h2, t, m);
                if holds(h, t, m, h.lt[u]) {
                    lemma_extends_prefix(h2.lt[u], h.lt[u], m);
                    assert(holds(h, t, m, h2.lt[u]));
                    assert(false);
                }
                lemma_later_hold_shrinks(c, g, h, id, e, t, m, u - 1);
                assert(first_lacking(h, t, m, u));
                assert(voters_outside(c, h, t, m, u));
                assert forall|w: NodeId| #[trigger] h2.ev[u].contains(w) implies ack_of(h2, w, t) < m
                    && c2.nodes[w as int].current_term > t by {
                    assert(h.ev[u].contains(w));
                    assert(w < n) by {
                        assert(h.ev[u].subset_of(crate::cluster_model::ids_below(n)));
                    }
                    if ack_of(h2, w, t) >= m {
                        assert(w == id && t == t2);
                        assert(c2.nodes[id as int] == s2);
                    }
                    if w != id {
                        assert(c2.nodes[w as int] == c.nodes[w as int]);
                    }
                }
            } else {
                lemma_new_pair(c, g, h, id, e, t, m);
                assert forall|w: NodeId| #[trigger] h2.ev[u].contains(w) implies ack_of(h2, w, t) < m
                    && c2.nodes[w as int].current_term > t by {
                    assert(h.ev[u].contains(w));
                    assert(w < n) by {
                        assert(h.ev[u].subset_of(crate::cluster_model::ids_below(n)));
                    }
                    assert(g.votes.contains_key((w, u)));
                    assert(node_ok(c, g, w as int));
                    assert(u <= c.nodes[w as int].current_term);
                    if w == id {
                        assert(c2.nodes[id as int] == s2);
                        assert(false);
                    } else {
                        assert(c2.nodes[w as int] == c.nodes[w as int]);
                    }
                }
            }
        }
    }
    assert forall|k: (NodeId, Term)| #[trigger]
        h2.acks.contains_key(k) && k != (id, t2) implies acked_ok(c2, h2, k) by {
        assert(h.acks.contains_key(k));
        assert(acked_ok(c, h, k));
        assert(c2.nodes[k.0 as int].current_term >= c.nodes[k.0 as int].current_term);
    }
}

/// What the stepping node itself must bring to the invariant: its own
/// state, the leader record, vote and acknowledgement it makes, the voters
/// of a leader it becomes, and the messages it sends.
pub open spec fn own_ok(c: ClusterView, g: ClusterGhost, h: History, id: NodeId, e: EventView) -> bool {
    let s = c.nodes[id as int];
    let (s2, acts) = step_of(s, e);
    let t2 = s2.current_term;
    let g2 = ghost_after(g, id, s2);
    let h2 = history_after(h, id, s, e);
    let c2 = step_node(c, id, e);
    let n = c.nodes.len();
    &&& node_safe(c2, h2, id as int)
    &&& s2.role == Role::Leader ==> leader_ok(c2, g2, h2, t2)
    &&& s2.voted_for is Some && !h.vlog.contains_key((id, t2)) ==> vote_ok(g2, h2, id, t2)
    &&& h2.acks.contains_key((id, t2)) ==> acked_ok(c2, h2, (id, t2))
    &&& forall|t: Term, m: int| #[trigger] ack_kept(c2, h2, t, m, id)
    &&& s2.role == Role::Leader && !h.lt.contains_key(t2) ==> forall|t: Term, m: int| #[trigger]
        voters_outside(c2, h2, t, m, t2)
    &&& forall|k: int|
        0 <= k < acts.len() ==> match #[trigger] acts[k] {
            crate::event::ActionView::Send { to, message } => msg_safe(g2, h2, n, id, to, message),
            crate::event::ActionView::Apply { .. } => true,
        }
}

/// A step that keeps the frame and brings its own part keeps the safety
/// invariant.
pub proof fn lemma_step_safe_from_parts(c: ClusterView, g: ClusterGhost, h: History, id: NodeId, e: EventView)
    requires
        step_ctx(c, g, h, id, e),
        own_ok(c, g, h, id, e),
    ensures
        ({
            let s = c.nodes[id as int];
            let s2 = step_of(s, e).0;
            &&& safety_inv(step_node(c, id, e), ghost_after(g, id, s2), history_after(h, id, s, e))
            &&& history_grows(h, history_after(h, id, s, e))
        }),
{
    let s = c.nodes[id as int];
    let (s2, acts) = step_of(s, e);
    let t2 = s2.current_term;
    let g2 = ghost_after(g, id, s2);
    let h2 = history_after(h, id, s, e);
    let c2 = step_node(c, id, e);
    let n = c.nodes.len();
    lemma_step_cluster(c, g, id, e);
    lemma_step_grows(c, g, h, id, e);
    lemma_step_others(c, g, h, id, e);
    lemma_step_frame(c, g, h, id, e);
    lemma_step_voters(c, g, h, id, e);
    assert(c2.nodes.len() == n);
    assert forall|t: Term| #[trigger] h2.lt.contains_key(t) implies leader_ok(c2, g2, h2, t) by {
        if !(s2.role == Role::Leader && t == t2) {
            assert(h.lt.contains_key(t));
        }
    }
    assert forall|v: NodeId, t: Term| #[trigger] h2.vlog.contains_key((v, t)) implies vote_ok(g2, h2, v, t) by {
        if !h.vlog.contains_key((v, t)) {
            assert(v == id && t == t2);
        }
    }
    assert forall|k: (NodeId, Term)| #[trigger] h2.acks.contains_key(k) implies acked_ok(c2, h2, k) by {
        if k != (id, t2) {
        }
    }
    assert forall|t: Term, m: int, v: NodeId| 0 <= v < n implies #[trigger] ack_kept(c2, h2, t, m, v) by {
        if v == id {
        }
    }
    assert forall|t: Term, m: int, u: Term| #[trigger] voters_outside(c2, h2, t, m, u) by {
        if u == t2 && s2.role == Role::Leader && !h.lt.contains_key(t2) {
        }
    }
    assert forall|i: int| 0 <= i < n implies #[trigger] node_safe(c2, h2, i) by {
        if i != id {
        }
    }
    assert forall|k: int| 0 <= k < c2.net.queue.len() implies #[trigger] msg_safe(
        g2,
        h2,
        n,
        c2.net.queue[k].from,
        c2.net.queue[k].to,
        c2.net.queue[k].message,
    ) by {
        if k >= c.net.queue.len() {
            let j = choose|j: int|
                0 <= j < acts.len() && acts[j] == (crate::event::ActionView::Send {
                    to: c2.net.queue[k].to,
                    message: c2.net.queue[k].message,
                });
            assert(match acts[j] {
                crate::event::ActionView::Send { to, message } => msg_safe(g2, h2, n, id, to, message),
                crate::event::ActionView::Apply { .. } => true,
            });
        }
    }
}

} // verus!
