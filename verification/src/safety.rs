//! State Machine Safety for every reachable cluster: the safety invariant
//! holds of a fresh cluster, every node step, delivery and clock tick keeps
//! it, and it implies that nodes never apply different commands at one index.
use vstd::prelude::*;

use crate::cluster_model::{ghost_after, initial_cluster, step_node, ClusterGhost, ClusterView};
use crate::event::EventView;
use crate::history::{
    empty_history, history_ok, msg_safe, node_safe, safety_inv, History,
};
use crate::history_frame::{history_after, history_grows};
use crate::message::MessageView;
use crate::network::{delivered_of, pending_of, Delivery, InFlightView, NetworkView};
use crate::node_model::step_of;
use crate::safety_frame::lemma_step_safe_from_parts;
use crate::safety_tick::step_base;
use crate::types::NodeId;

verus! {

/// One node step keeps the safety invariant, and the history only grows.
pub proof fn lemma_step_safe(c: ClusterView, g: ClusterGhost, h: History, id: NodeId, e: EventView)
    requires
        step_base(c, g, h, id, e),
    ensures
        safety_inv(
            step_node(c, id, e),
            ghost_after(g, id, step_of(c.nodes[id as int], e).0),
            history_after(h, id, c.nodes[id as int], e),
        ),
        history_grows(h, history_after(h, id, c.nodes[id as int], e)),
{
    match e {
        EventView::Tick => crate::safety_tick::lemma_tick_safe(c, g, h, id),
        EventView::Propose { command } => crate::safety_leader::lemma_propose_safe(c, g, h, id, command),
        EventView::Message { from, message } => match message {
            MessageView::RequestVote(req) => crate::safety_votes::lemma_request_vote_safe(
                c,
                g,
                h,
                id,
                from,
                req,
            ),
            MessageView::RequestVoteReply(r) => crate::safety_votes::lemma_vote_reply_safe(
                c,
                g,
                h,
                id,
                from,
                r,
            ),
            MessageView::AppendEntries(ae) => {
                let s1 = crate::node_model::observe_term_of(c.nodes[id as int], ae.term);
                if ae.term < s1.current_term || !crate::node_model::prev_matches(s1, ae) {
                    crate::safety_append::lemma_append_refused(c, g, h, id, from, ae);
                } else {
                    crate::safety_append::lemma_append_accepted(c, g, h, id, from, ae);
                }
            },
            MessageView::AppendEntriesReply(r) => crate::safety_votes::lemma_append_reply_safe(
                c,
                g,
                h,
                id,
                from,
                r,
            ),
        },
    }
    lemma_step_safe_from_parts(c, g, h, id, e);
}

/// A fresh cluster keeps the safety invariant with an empty history.
pub proof fn lemma_initial_safe(n: nat)
    ensures
        safety_inv(initial_cluster(n), ClusterGhost { votes: Map::empty(), budget: 0 }, empty_history()),
{
    let c = initial_cluster(n);
    let g = ClusterGhost { votes: Map::empty(), budget: 0 };
    let h = empty_history();
    assert forall|i: int| 0 <= i < c.nodes.len() implies #[trigger] node_safe(c, h, i) by {
        assert(c.nodes[i].log.len() == 0);
        assert(crate::node_laws::contiguous(c.nodes[i].log));
    }
}

/// Every message of the queue agrees with the history.
pub open spec fn queue_safe(q: Seq<InFlightView>, g: ClusterGhost, h: History, count: nat) -> bool {
    forall|k: int| 0 <= k < q.len() ==> #[trigger] msg_safe(g, h, count, q[k].from, q[k].to, q[k].message)
}

/// Every delivery agrees with the history.
pub open spec fn deliveries_safe(ds: Seq<Delivery>, g: ClusterGhost, h: History, count: nat) -> bool {
    forall|k: int|
        0 <= k < ds.len() ==> #[trigger] msg_safe(g, h, count, ds[k].from, ds[k].to, ds[k].message)
}

/// What a queue that agrees with the history delivers, and what it keeps,
/// agree with it.
pub proof fn lemma_delivery_safe(q: Seq<InFlightView>, iso: Set<NodeId>, t: u64, g: ClusterGhost, h: History, count: nat)
    requires
        queue_safe(q, g, h, count),
    ensures
        deliveries_safe(delivered_of(q, iso, t), g, h, count),
        queue_safe(pending_of(q, t), g, h, count),
    decreases q.len(),
{
    if q.len() > 0 {
        let init = q.drop_last();
        assert(queue_safe(init, g, h, count)) by {
            assert forall|k: int| 0 <= k < init.len() implies #[trigger] msg_safe(
                g,
                h,
                count,
                init[k].from,
                init[k].to,
                init[k].message,
            ) by {
                assert(init[k] == q[k]);
            }
        }
        lemma_delivery_safe(init, iso, t, g, h, count);
        assert(msg_safe(g, h, count, q[q.len() - 1].from, q[q.len() - 1].to, q[q.len() - 1].message));
        let d = delivered_of(q, iso, t);
        let d0 = delivered_of(init, iso, t);
        assert forall|k: int| 0 <= k < d.len() implies #[trigger] msg_safe(
            g,
            h,
            count,
            d[k].from,
            d[k].to,
            d[k].message,
        ) by {
            if k < d0.len() {
                assert(d[k] == d0[k]);
            }
        }
        let p = pending_of(q, t);
        let p0 = pending_of(init, t);
        assert forall|k: int| 0 <= k < p.len() implies #[trigger] msg_safe(
            g,
            h,
            count,
            p[k].from,
            p[k].to,
            p[k].message,
        ) by {
            if k < p0.len() {
                assert(p[k] == p0[k]);
            }
        }
    }
}

/// Advancing the clock and dropping what was delivered keeps the safety
/// invariant, and what is delivered agrees with the history.
pub proof fn lemma_clock_safe(c: ClusterView, g: ClusterGhost, h: History)
    requires
        safety_inv(c, g, h),
        c.time < u64::MAX,
    ensures
        ({
            let t = (c.time + 1) as u64;
            let c1 = ClusterView {
                time: t,
                net: NetworkView { queue: pending_of(c.net.queue, t), ..c.net },
                ..c
            };
            &&& safety_inv(c1, g, h)
            &&& deliveries_safe(delivered_of(c.net.queue, c.net.isolated, t), g, h, c.nodes.len())
        }),
{
    let t = (c.time + 1) as u64;
    let c1 = ClusterView {
        time: t,
        net: NetworkView { queue: pending_of(c.net.queue, t), ..c.net },
        ..c
    };
    let n = c.nodes.len();
    lemma_delivery_safe(c.net.queue, c.net.isolated, t, g, h, n);
    assert(history_ok(c1, g, h)) by {
        assert forall|tt: crate::types::Term| #[trigger] h.lt.contains_key(tt) implies crate::history::leader_ok(
            c1,
            g,
            h,
            tt,
        ) by {
            assert(crate::history::leader_ok(c, g, h, tt));
        }
        assert forall|k: (NodeId, crate::types::Term)| #[trigger] h.acks.contains_key(k) implies crate::history::acked_ok(
            c1,
            h,
            k,
        ) by {
            assert(crate::history::acked_ok(c, h, k));
        }
        assert forall|tt: crate::types::Term, m: int, v: NodeId| 0 <= v < n implies #[trigger] crate::history::ack_kept(
            c1,
            h,
            tt,
            m,
            v,
        ) by {
            assert(crate::history::ack_kept(c, h, tt, m, v));
        }
        assert forall|tt: crate::types::Term, m: int, u: crate::types::Term| #[trigger] crate::history::voters_outside(
            c1,
            h,
            tt,
            m,
            u,
        ) by {
            assert(crate::history::voters_outside(c, h, tt, m, u));
        }
    }
    assert forall|i: int| 0 <= i < n implies #[trigger] node_safe(c1, h, i) by {
        assert(node_safe(c, h, i));
    }
}

/// The safety invariant does not look at the partition, the clock or the
/// proposal budget.
pub proof fn lemma_safety_ignores(c: ClusterView, c2: ClusterView, g: ClusterGhost, g2: ClusterGhost, h: History)
    requires
        safety_inv(c, g, h),
        c2.nodes == c.nodes,
        c2.applied == c.applied,
        c2.net.queue == c.net.queue,
        g2.votes == g.votes,
    ensures
        safety_inv(c2, g2, h),
{
    let n = c.nodes.len();
    assert(history_ok(c2, g2, h)) by {
        assert forall|tt: crate::types::Term| #[trigger] h.lt.contains_key(tt) implies crate::history::leader_ok(
            c2,
            g2,
            h,
            tt,
        ) by {
            assert(crate::history::leader_ok(c, g, h, tt));
        }
        assert forall|v: NodeId, tt: crate::types::Term| #[trigger] h.vlog.contains_key((v, tt)) implies crate::history::vote_ok(
            g2,
            h,
            v,
            tt,
        ) by {
            assert(crate::history::vote_ok(g, h, v, tt));
        }
        assert forall|k: (NodeId, crate::types::Term)| #[trigger] h.acks.contains_key(k) implies crate::history::acked_ok(
            c2,
            h,
            k,
        ) by {
            assert(crate::history::acked_ok(c, h, k));
        }
        assert forall|tt: crate::types::Term, m: int, v: NodeId| 0 <= v < n implies #[trigger] crate::history::ack_kept(
            c2,
            h,
            tt,
            m,
            v,
        ) by {
            assert(crate::history::ack_kept(c, h, tt, m, v));
        }
        assert forall|tt: crate::types::Term, m: int, u: crate::types::Term| #[trigger] crate::history::voters_outside(
            c2,
            h,
            tt,
            m,
            u,
        ) by {
            assert(crate::history::voters_outside(c, h, tt, m, u));
        }
    }
    assert forall|i: int| 0 <= i < n implies #[trigger] node_safe(c2, h, i) by {
        assert(node_safe(c, h, i));
    }
    assert forall|k: int| 0 <= k < c2.net.queue.len() implies #[trigger] msg_safe(
        g2,
        h,
        n,
        c2.net.queue[k].from,
        c2.net.queue[k].to,
        c2.net.queue[k].message,
    ) by {
        assert(msg_safe(g, h, n, c.net.queue[k].from, c.net.queue[k].to, c.net.queue[k].message));
    }
}

/// Every command a node applied at an index stays recorded there: `c2`
/// keeps every entry of every applied record of `c1`.
pub open spec fn applied_kept(c1: ClusterView, c2: ClusterView) -> bool {
    &&& c1.applied.len() == c2.applied.len()
    &&& forall|i: int, k: crate::types::LogIndex|
        0 <= i < c1.applied.len() && #[trigger] c1.applied[i].contains_key(k) ==> c2.applied[i].contains_key(k)
            && c2.applied[i][k] == c1.applied[i][k]
}

/// Keeping applied entries is transitive.
pub proof fn lemma_applied_kept_trans(c1: ClusterView, c2: ClusterView, c3: ClusterView)
    requires
        applied_kept(c1, c2),
        applied_kept(c2, c3),
    ensures
        applied_kept(c1, c3),
{
    assert forall|i: int, k: crate::types::LogIndex|
        0 <= i < c1.applied.len() && #[trigger] c1.applied[i].contains_key(k) implies c3.applied[i].contains_key(k)
            && c3.applied[i][k] == c1.applied[i][k] by {
        assert(c2.applied[i].contains_key(k));
    }
}

/// A node step only adds applied entries: it applies the indices past its
/// old commit index, and its record held none of them.
pub proof fn lemma_step_applied_kept(c: ClusterView, g: ClusterGhost, h: History, id: NodeId, e: EventView)
    requires
        step_base(c, g, h, id, e),
    ensures
        applied_kept(c, step_node(c, id, e)),
{
    let s = c.nodes[id as int];
    let (s2, acts) = step_of(s, e);
    let c2 = step_node(c, id, e);
    crate::safety_frame::lemma_step_cluster(c, g, id, e);
    assert(node_safe(c, h, id as int));
    assert(crate::cluster_model::node_ok(c, g, id as int));
    crate::node_laws::lemma_step_commit(s, e);
    crate::node_laws::lemma_step_bounds(s, e, g.budget);
    crate::node_model::lemma_step_preserves_wf(s, e);
    let a = c.applied[id as int];
    crate::history_step::lemma_record_applies_of(a, acts);
    crate::safety::lemma_step_safe(c, g, h, id, e);
    assert(node_safe(c2, history_after(h, id, s, e), id as int));
    assert(c2.nodes[id as int] == s2);
    crate::history_step::lemma_record_apply_range(a, s2.log, s.commit_index as int, s2.commit_index as int);
    assert forall|i: int, k: crate::types::LogIndex|
        0 <= i < c.applied.len() && #[trigger] c.applied[i].contains_key(k) implies c2.applied[i].contains_key(k)
            && c2.applied[i][k] == c.applied[i][k] by {
        if i == id {
            assert(k <= s.commit_index);
        }
    }
}

} // verus!
