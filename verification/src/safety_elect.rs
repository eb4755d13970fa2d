//! Elections and the leader record: a continuing leader keeps its record, a
//! new leader is recorded with the quorum that elected it, and the voters of
//! a new leader lacking a prefix of an earlier term never acknowledged it.
use vstd::prelude::*;

use crate::cluster_model::{ghost_after, ids_below, node_ok, step_node, ClusterGhost, ClusterView};
use crate::event::EventView;
use crate::history::{
    ack_kept, ack_of, backed, first_lacking, holds, later_hold, leader_ok, majority,
    matches_leaders, node_safe, terms_at_most, up_to_date, valid_pair, vote_kept, vote_ok,
    voters_outside, History,
};
use crate::history_frame::{history_after, lemma_grows_pair};
use crate::log::{last_index_of, LogEntryView};
use crate::node_model::{quorum_of, step_of};
use crate::safety_frame::{lemma_later_hold_shrinks, lemma_step_cluster, lemma_step_grows, step_ctx};
use crate::types::{NodeId, Role, Term};

verus! {

/// A leader that stays leader of its term keeps its leader record.
pub proof fn lemma_leader_ok_continuing(c: ClusterView, g: ClusterGhost, h: History, id: NodeId, e: EventView)
    requires
        step_ctx(c, g, h, id, e),
        step_of(c.nodes[id as int], e).0.role == Role::Leader,
        h.lt.contains_key(step_of(c.nodes[id as int], e).0.current_term),
        node_safe(step_node(c, id, e), history_after(h, id, c.nodes[id as int], e), id as int),
    ensures
        leader_ok(
            step_node(c, id, e),
            ghost_after(g, id, step_of(c.nodes[id as int], e).0),
            history_after(h, id, c.nodes[id as int], e),
            step_of(c.nodes[id as int], e).0.current_term,
        ),
{
    let s = c.nodes[id as int];
    let s2 = step_of(s, e).0;
    let t2 = s2.current_term;
    let g2 = ghost_after(g, id, s2);
    let h2 = history_after(h, id, s, e);
    let c2 = step_node(c, id, e);
    lemma_step_cluster(c, g, id, e);
    assert(leader_ok(c, g, h, t2));
    assert(node_safe(c, h, id as int));
    assert(c2.nodes[id as int] == s2);
    assert forall|w: NodeId| #[trigger] h2.ev[t2].contains(w) implies g2.votes.contains_key((w, t2))
        && g2.votes[(w, t2)] == h2.ldr[t2] by {
        assert(h.ev[t2].contains(w));
    }
}

/// A node that becomes leader of a new term is recorded with the votes that
/// elected it.
pub proof fn lemma_leader_ok_elected(c: ClusterView, g: ClusterGhost, h: History, id: NodeId, e: EventView)
    requires
        step_ctx(c, g, h, id, e),
        step_of(c.nodes[id as int], e).0.role == Role::Leader,
        !h.lt.contains_key(step_of(c.nodes[id as int], e).0.current_term),
        node_safe(step_node(c, id, e), history_after(h, id, c.nodes[id as int], e), id as int),
    ensures
        leader_ok(
            step_node(c, id, e),
            ghost_after(g, id, step_of(c.nodes[id as int], e).0),
            history_after(h, id, c.nodes[id as int], e),
            step_of(c.nodes[id as int], e).0.current_term,
        ),
{
    let s = c.nodes[id as int];
    let s2 = step_of(s, e).0;
    let t2 = s2.current_term;
    let g2 = ghost_after(g, id, s2);
    let h2 = history_after(h, id, s, e);
    let c2 = step_node(c, id, e);
    let n = c.nodes.len();
    lemma_step_cluster(c, g, id, e);
    assert(c2.nodes[id as int] == s2);
    assert(node_ok(c2, g2, id as int));
    assert(h2.ev[t2] == s2.votes_received);
    assert(s2.peers.len() == n - 1);
    assert(quorum_of(s2) == majority(n));
    assert forall|w: NodeId| #[trigger] h2.ev[t2].contains(w) implies ids_below(n).contains(w) by {
    }
}

/// The election restriction carries a held prefix from a voter's log to the
/// log of the candidate it voted for, when every leader between the prefix's
/// term and the election holds it.
pub proof fn lemma_utd_transfer(
    c: ClusterView,
    g: ClusterGhost,
    h: History,
    t: Term,
    m: int,
    vw: Seq<LogEntryView>,
    vc: Seq<LogEntryView>,
    big: Term,
)
    requires
        forall|u: Term| #[trigger] h.lt.contains_key(u) ==> leader_ok(c, g, h, u),
        valid_pair(h, t, m),
        t < big,
        !h.lt.contains_key(big),
        later_hold(h, t, m, big - 1),
        matches_leaders(h, vw),
        matches_leaders(h, vc),
        terms_at_most(vw, big),
        terms_at_most(vc, big),
        holds(h, t, m, vw),
        up_to_date(vc, vw),
    ensures
        holds(h, t, m, vc),
{
    assert(leader_ok(c, g, h, t));
    let kw = vw.len() - 1;
    assert(backed(h, vw, kw));
    let lw = vw[kw].term;
    assert(h.lt.contains_key(lw));
    assert(leader_ok(c, g, h, lw));
    assert(vw[m - 1] == vw.subrange(0, m)[m - 1]);
    assert(vw[m - 1] == vw.subrange(0, kw + 1)[m - 1]);
    assert(h.lt[lw][m - 1] == h.lt[lw].subrange(0, kw + 1)[m - 1]);
    assert(h.lt[t][m - 1] == h.lt[t].subrange(0, m)[m - 1]);
    assert(t <= lw);
    assert(lw < big);
    assert(last_index_of(vw) == vw.len());
    assert(vc.len() > 0);
    let kc = vc.len() - 1;
    assert(backed(h, vc, kc));
    let lc = vc[kc].term;
    assert(last_index_of(vc) == vc.len());
    assert(h.lt.contains_key(lc));
    assert(leader_ok(c, g, h, lc));
    assert(lc < big);
    assert(vc.subrange(0, kc + 1) =~= vc);
    if lc > lw {
        assert(holds(h, t, m, h.lt[lc]));
        if vc.len() >= m {
            assert(vc.subrange(0, m) =~= vc.subrange(0, kc + 1).subrange(0, m));
            assert(h.lt[lc].subrange(0, m) =~= h.lt[lc].subrange(0, kc + 1).subrange(0, m));
        } else {
            assert(vc[kc] == h.lt[lc].subrange(0, kc + 1)[kc]);
            assert(h.lt[lc][kc] == h.lt[lc].subrange(0, m)[kc]);
            assert(h.lt[t][kc] == h.lt[t].subrange(0, m)[kc]);
            assert(h.lt[t][kc].term <= t);
            assert(false);
        }
    } else {
        assert(lc == lw);
        assert(vc.len() >= vw.len());
        assert(vc.subrange(0, m) =~= vc.subrange(0, kc + 1).subrange(0, m));
        assert(h.lt[lc].subrange(0, m) =~= h.lt[lc].subrange(0, kc + 1).subrange(0, m));
        if lw > t {
            assert(holds(h, t, m, h.lt[lw]));
        }
    }
}

/// A new leader's voters: if its log lacks a prefix of an earlier term that
/// every leader in between holds, none of its voters acknowledged that
/// prefix (a voter that had would have held it when it voted, and the
/// election restriction would have carried it to the candidate).
pub proof fn lemma_election_voters(c: ClusterView, g: ClusterGhost, h: History, id: NodeId, e: EventView)
    requires
        step_ctx(c, g, h, id, e),
        step_of(c.nodes[id as int], e).0.role == Role::Leader,
        !h.lt.contains_key(step_of(c.nodes[id as int], e).0.current_term),
        ({
            let s = c.nodes[id as int];
            let s2 = step_of(s, e).0;
            ||| (s.role == Role::Candidate && s.current_term == s2.current_term)
            ||| (s.current_term + 1 == s2.current_term && s2.votes_received == Set::<NodeId>::empty().insert(id))
        }),
    ensures
        forall|t: Term, m: int| #[trigger]
            voters_outside(
                step_node(c, id, e),
                history_after(h, id, c.nodes[id as int], e),
                t,
                m,
                step_of(c.nodes[id as int], e).0.current_term,
            ),
{
    let s = c.nodes[id as int];
    let s2 = step_of(s, e).0;
    let t2 = s2.current_term;
    let g2 = ghost_after(g, id, s2);
    let h2 = history_after(h, id, s, e);
    let c2 = step_node(c, id, e);
    let n = c.nodes.len();
    lemma_step_cluster(c, g, id, e);
    lemma_step_grows(c, g, h, id, e);
    assert(c2.nodes[id as int] == s2);
    assert(node_ok(c2, g2, id as int));
    assert(node_ok(c, g, id as int));
    assert(node_safe(c, h, id as int));
    assert forall|t: Term, m: int| #[trigger] voters_outside(c2, h2, t, m, t2) by {
        if first_lacking(h2, t, m, t2) {
            if !valid_pair(h, t, m) {
                crate::safety_frame::lemma_new_pair(c, g, h, id, e, t, m);
            }
            lemma_grows_pair(h, h2, t, m);
            lemma_later_hold_shrinks(c, g, h, id, e, t, m, t2 - 1);
            assert(h2.lt[t2] == s.log);
            assert(!holds(h, t, m, s.log));
            assert(later_hold(h, t, m, t2 as int)) by {
                assert forall|u: Term| h.lt.contains_key(u) && t < u <= t2 implies holds(h, t, m, h.lt[u]) by {
                    assert(u != t2);
                }
            }
            assert forall|w: NodeId| #[trigger] h2.ev[t2].contains(w) implies ack_of(h2, w, t) < m
                && c2.nodes[w as int].current_term > t by {
                assert(s2.votes_received.contains(w));
                assert(w < n);
                assert(g2.votes.contains_key((w, t2)));
                assert(node_ok(c2, g2, w as int));
                assert(ack_of(h2, w, t) == ack_of(h, w, t));
                if ack_of(h, w, t) >= m {
                    if s.role == Role::Candidate && s.current_term == t2 {
                        assert(g.votes.contains_key((w, t2)) && g.votes[(w, t2)] == id) by {
                            if w == id {
                                assert(s.voted_for == Some(id));
                            }
                        }
                        assert(h.vlog.contains_key((w, t2)));
                        assert(vote_kept(h, t, m, w, t2));
                        assert(vote_ok(g, h, w, t2));
                        assert(h.vlog[(id, t2)] == s.log);
                        lemma_utd_transfer(c, g, h, t, m, h.vlog[(w, t2)], s.log, t2);
                    } else {
                        assert(w == id);
                        assert(ack_kept(c, h, t, m, id));
                    }
                    assert(false);
                }
            }
        }
    }
}

} // verus!
