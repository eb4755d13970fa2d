//! The mathematical model of the simulated cluster (its state as plain values
//! and what each operation does to it), the invariant every reachable cluster
//! keeps, and Election Safety proved from that invariant.
use vstd::prelude::*;

use crate::event::{ActionView, EventView};
use crate::message::MessageView;
use crate::network::{delivered_of, pending_of, Delivery, InFlightView, NetworkView};
use crate::node::{initial_node, Config};
use crate::node_laws::{
    lemma_step_bounds, lemma_step_term, lemma_step_votes, log_bounded, message_bounded,
    vote_arrives,
};
use crate::node_model::{lemma_step_preserves_wf, node_wf, quorum_of, step_in_range, step_of, NodeView};
use crate::types::{LogIndex, NodeId, Role, Term};

verus! {

/// The largest cluster the simulation builds (election timeouts must fit in `u32`).
pub const MAX_NODES: u64 = 2147483646;

/// The whole cluster as plain values.
pub struct ClusterView {
    pub nodes: Seq<NodeView>,
    pub net: NetworkView,
    pub applied: Seq<Map<LogIndex, Seq<u8>>>,
    pub time: u64,
}

/// Proof-only bookkeeping: every vote ever cast, keyed by (voter, term), and a
/// bound on every log index in the cluster (the number of proposals made).
pub struct ClusterGhost {
    pub votes: Map<(NodeId, Term), NodeId>,
    pub budget: nat,
}

/// The peers of node `id` in a cluster of `n` nodes: every other id, in order.
pub open spec fn peers_for(n: nat, id: NodeId) -> Seq<NodeId> {
    Seq::new((n - 1) as nat, |k: int| if k < id { k as u64 } else { (k + 1) as u64 })
}

/// The timeouts of node `id`: elections staggered by id, frequent heartbeats.
pub open spec fn config_for(id: int) -> Config {
    Config { election_timeout: (5 + 2 * id) as u32, heartbeat_timeout: 1 }
}

/// A fresh cluster of `n` nodes.
pub open spec fn initial_cluster(n: nat) -> ClusterView {
    ClusterView {
        nodes: Seq::new(n, |i: int| initial_node(i as u64, peers_for(n, i as u64), config_for(i))),
        net: NetworkView { queue: Seq::empty(), isolated: Set::empty(), delay: 1 },
        applied: Seq::new(n, |i: int| Map::<LogIndex, Seq<u8>>::empty()),
        time: 0,
    }
}

/// Routes one action of node `src`: a send enters the network, an apply is
/// recorded.
pub open spec fn dispatch_one(c: ClusterView, src: NodeId, a: ActionView) -> ClusterView {
    match a {
        ActionView::Send { to, message } => ClusterView {
            net: NetworkView {
                queue: c.net.queue.push(
                    InFlightView {
                        from: src,
                        to,
                        message,
                        deliver_at: (c.time + c.net.delay) as u64,
                    },
                ),
                ..c.net
            },
            ..c
        },
        ActionView::Apply { index, command } => ClusterView {
            applied: c.applied.update(src as int, c.applied[src as int].insert(index, command)),
            ..c
        },
    }
}

/// Routes the actions of node `src` in order.
pub open spec fn dispatch_of(c: ClusterView, src: NodeId, acts: Seq<ActionView>) -> ClusterView
    decreases acts.len(),
{
    if acts.len() == 0 {
        c
    } else {
        dispatch_one(dispatch_of(c, src, acts.drop_last()), src, acts.last())
    }
}

/// Node `id` takes event `e` and its actions are routed.
pub open spec fn step_node(c: ClusterView, id: NodeId, e: EventView) -> ClusterView {
    let r = step_of(c.nodes[id as int], e);
    dispatch_of(ClusterView { nodes: c.nodes.update(id as int, r.0), ..c }, id, r.1)
}

/// Hands each delivered message to its receiver, in order.
pub open spec fn deliver_all(c: ClusterView, ds: Seq<Delivery>) -> ClusterView
    decreases ds.len(),
{
    if ds.len() == 0 {
        c
    } else {
        let c1 = deliver_all(c, ds.drop_last());
        let d = ds.last();
        if d.to < c1.nodes.len() {
            step_node(c1, d.to, EventView::Message { from: d.from, message: d.message })
        } else {
            c1
        }
    }
}

/// Ticks nodes `0 .. k`, in id order.
pub open spec fn tick_nodes(c: ClusterView, k: nat) -> ClusterView
    decreases k,
{
    if k == 0 {
        c
    } else {
        step_node(tick_nodes(c, (k - 1) as nat), (k - 1) as u64, EventView::Tick)
    }
}

/// One step of the logical clock: deliver what is due, then tick every node.
pub open spec fn tick_of(c: ClusterView) -> ClusterView {
    let t = (c.time + 1) as u64;
    let c1 = ClusterView {
        time: t,
        net: NetworkView { queue: pending_of(c.net.queue, t), ..c.net },
        ..c
    };
    tick_nodes(deliver_all(c1, delivered_of(c.net.queue, c.net.isolated, t)), c.nodes.len())
}

/// `ticks` steps of the logical clock.
pub open spec fn run_of(c: ClusterView, ticks: nat) -> ClusterView
    decreases ticks,
{
    if ticks == 0 {
        c
    } else {
        tick_of(run_of(c, (ticks - 1) as nat))
    }
}

/// Among nodes `0 .. k`, a leader of the highest term, the later one on ties.
pub open spec fn leader_among(nodes: Seq<NodeView>, k: nat) -> Option<NodeId>
    decreases k,
{
    if k == 0 {
        None
    } else {
        let best = leader_among(nodes, (k - 1) as nat);
        let n = nodes[k - 1];
        if n.role == Role::Leader && (best matches Some(b) ==> nodes[b as int].current_term
            <= n.current_term) {
            Some(n.id)
        } else {
            best
        }
    }
}

/// The current leader: the leader with the highest term, if any.
pub open spec fn leader_of(c: ClusterView) -> Option<NodeId> {
    leader_among(c.nodes, c.nodes.len())
}

/// A proposal goes to the current leader, if there is one.
pub open spec fn propose_of(c: ClusterView, command: Seq<u8>) -> (ClusterView, bool) {
    match leader_of(c) {
        Some(l) => (step_node(c, l, EventView::Propose { command }), true),
        None => (c, false),
    }
}

/// The vote record after node `id` reached state `s2`.
pub open spec fn votes_after(votes: Map<(NodeId, Term), NodeId>, id: NodeId, s2: NodeView) -> Map<
    (NodeId, Term),
    NodeId,
> {
    match s2.voted_for {
        Some(v) => votes.insert((id, s2.current_term), v),
        None => votes,
    }
}

/// `g2` keeps every vote of `g1` and a budget at least as large.
pub open spec fn ghost_grows(g1: ClusterGhost, g2: ClusterGhost) -> bool {
    &&& forall|k: (NodeId, Term)| #[trigger]
        g1.votes.contains_key(k) ==> g2.votes.contains_key(k) && g2.votes[k] == g1.votes[k]
    &&& g1.budget <= g2.budget
}

/// A message from `from` to `to` agrees with the record: it was sent by a
/// node, carries no term past `time`, stays within the budget, a vote
/// request names its sender, and a granted vote is recorded for its receiver.
pub open spec fn message_ok(from: NodeId, to: NodeId, m: MessageView, n: nat, g: ClusterGhost, time: u64) -> bool {
    &&& from < n
    &&& m.term() <= time
    &&& message_bounded(m, g.budget)
    &&& m matches MessageView::RequestVote(req) ==> req.candidate_id == from
    &&& m matches MessageView::RequestVoteReply(r) ==> (r.vote_granted ==> {
        &&& g.votes.contains_key((from, r.term))
        &&& g.votes[(from, r.term)] == to
    })
}

/// Node `i` agrees with the record.
pub open spec fn node_ok(c: ClusterView, g: ClusterGhost, i: int) -> bool {
    let n = c.nodes.len();
    let s = c.nodes[i];
    &&& s.id == i
    &&& s.peers == peers_for(n, i as u64)
    &&& node_wf(s)
    &&& s.current_term <= c.time
    &&& log_bounded(s, g.budget)
    &&& s.voted_for matches Some(v) ==> g.votes.contains_key((i as u64, s.current_term))
        && g.votes[(i as u64, s.current_term)] == v
    &&& s.voted_for is None ==> !g.votes.contains_key((i as u64, s.current_term))
    &&& forall|t: Term|
        t > s.current_term ==> !#[trigger] g.votes.contains_key((i as u64, t))
    &&& s.role != Role::Follower ==> forall|v: NodeId| #[trigger]
        s.votes_received.contains(v) ==> {
            &&& v < n
            &&& g.votes.contains_key((v, s.current_term))
            &&& g.votes[(v, s.current_term)] == i
        }
    &&& s.role == Role::Leader ==> s.votes_received.len() >= quorum_of(s)
}

/// The invariant of every reachable cluster.
pub open spec fn cluster_inv(c: ClusterView, g: ClusterGhost) -> bool {
    let n = c.nodes.len();
    &&& n <= MAX_NODES
    &&& c.applied.len() == n
    &&& c.net.delay == 1
    &&& g.budget + 2 < u64::MAX
    &&& forall|i: int| 0 <= i < n ==> #[trigger] node_ok(c, g, i)
    &&& forall|k: int|
        0 <= k < c.net.queue.len() ==> #[trigger] message_ok(
            c.net.queue[k].from,
            c.net.queue[k].to,
            c.net.queue[k].message,
            n,
            g,
            c.time,
        )
}

/// Every action that node `src` may route under `g` at `time`.
pub open spec fn actions_ok(acts: Seq<ActionView>, src: NodeId, n: nat, g: ClusterGhost, time: u64) -> bool {
    forall|k: int|
        0 <= k < acts.len() ==> match #[trigger] acts[k] {
            ActionView::Send { to, message } => message_ok(src, to, message, n, g, time),
            ActionView::Apply { .. } => true,
        }
}

/// A message stays acceptable when the record grows and time passes.
pub proof fn lemma_message_ok_grows(
    from: NodeId,
    to: NodeId,
    m: MessageView,
    n: nat,
    g1: ClusterGhost,
    g2: ClusterGhost,
    t1: u64,
    t2: u64,
)
    requires
        message_ok(from, to, m, n, g1, t1),
        ghost_grows(g1, g2),
        t1 <= t2,
    ensures
        message_ok(from, to, m, n, g2, t2),
{
    match m {
        MessageView::RequestVoteReply(r) => {
            if r.vote_granted {
                assert(g1.votes.contains_key((from, r.term)));
            }
        },
        _ => {},
    }
}

/// Routing acceptable actions keeps the invariant, and leaves the nodes, the
/// clock, the partition and the delay alone.
pub proof fn lemma_dispatch(c: ClusterView, g: ClusterGhost, src: NodeId, acts: Seq<ActionView>)
    requires
        cluster_inv(c, g),
        src < c.nodes.len(),
        actions_ok(acts, src, c.nodes.len(), g, c.time),
    ensures
        cluster_inv(dispatch_of(c, src, acts), g),
        dispatch_of(c, src, acts).nodes == c.nodes,
        dispatch_of(c, src, acts).time == c.time,
        dispatch_of(c, src, acts).net.isolated == c.net.isolated,
        dispatch_of(c, src, acts).net.delay == c.net.delay,
    decreases acts.len(),
{
    if acts.len() > 0 {
        let init = acts.drop_last();
        assert(actions_ok(init, src, c.nodes.len(), g, c.time)) by {
            assert forall|k: int| 0 <= k < init.len() implies match #[trigger] init[k] {
                ActionView::Send { to, message } => message_ok(src, to, message, c.nodes.len(), g, c.time),
                ActionView::Apply { .. } => true,
            } by {
                assert(init[k] == acts[k]);
            }
        }
        lemma_dispatch(c, g, src, init);
        let c1 = dispatch_of(c, src, init);
        let a = acts.last();
        assert(match a {
            ActionView::Send { to, message } => message_ok(src, to, message, c.nodes.len(), g, c.time),
            ActionView::Apply { .. } => true,
        });
        let c2 = dispatch_one(c1, src, a);
        assert forall|i: int| 0 <= i < c2.nodes.len() implies #[trigger] node_ok(c2, g, i) by {
            assert(node_ok(c1, g, i));
        }
        assert forall|k: int| 0 <= k < c2.net.queue.len() implies #[trigger] message_ok(
            c2.net.queue[k].from,
            c2.net.queue[k].to,
            c2.net.queue[k].message,
            c2.nodes.len(),
            g,
            c2.time,
        ) by {
            if k < c1.net.queue.len() {
                assert(c2.net.queue[k] == c1.net.queue[k]);
            }
        }
    }
}

/// What node `id` may be handed as event `e` in cluster `c`: a tick once its
/// term is behind the clock, a proposal while the budget has room, a message
/// that agrees with the record and is addressed to it.
pub open spec fn event_ok(c: ClusterView, g: ClusterGhost, id: NodeId, e: EventView) -> bool {
    match e {
        EventView::Tick => c.nodes[id as int].current_term < c.time,
        EventView::Propose { .. } => c.nodes[id as int].log.len() < g.budget,
        EventView::Message { from, message } => message_ok(
            from,
            id,
            message,
            c.nodes.len(),
            g,
            c.time,
        ),
    }
}

/// The record after node `id` reached state `s2`.
pub open spec fn ghost_after(g: ClusterGhost, id: NodeId, s2: NodeView) -> ClusterGhost {
    ClusterGhost { votes: votes_after(g.votes, id, s2), budget: g.budget }
}

/// One node step keeps the invariant, with the record extended by the vote
/// the node now holds.
pub proof fn lemma_step_node(c: ClusterView, g: ClusterGhost, id: NodeId, e: EventView)
    requires
        cluster_inv(c, g),
        id < c.nodes.len(),
        event_ok(c, g, id, e),
    ensures
        step_in_range(c.nodes[id as int], e),
        cluster_inv(step_node(c, id, e), ghost_after(g, id, step_of(c.nodes[id as int], e).0)),
        ghost_grows(g, ghost_after(g, id, step_of(c.nodes[id as int], e).0)),
        step_node(c, id, e).time == c.time,
        step_node(c, id, e).nodes == c.nodes.update(id as int, step_of(c.nodes[id as int], e).0),
        step_node(c, id, e).net.isolated == c.net.isolated,
{
    let n = c.nodes.len();
    let s = c.nodes[id as int];
    assert(node_ok(c, g, id as int));
    lemma_step_bounds(s, e, g.budget);
    lemma_step_term(s, e);
    lemma_step_votes(s, e);
    lemma_step_preserves_wf(s, e);
    let s2 = step_of(s, e).0;
    let acts = step_of(s, e).1;
    let g2 = ghost_after(g, id, s2);
    assert(ghost_grows(g, g2)) by {
        match s2.voted_for {
            Some(v) => {
                if g.votes.contains_key((id, s2.current_term)) {
                    if s2.current_term == s.current_term {
                        assert(s.voted_for is Some);
                    } else {
                        assert(s2.current_term > s.current_term);
                    }
                }
            },
            None => {},
        }
    }
    let c1 = ClusterView { nodes: c.nodes.update(id as int, s2), ..c };
    assert forall|i: int| 0 <= i < n implies #[trigger] node_ok(c1, g2, i) by {
        assert(node_ok(c, g, i));
        if i != id {
            let si = c.nodes[i];
            assert(c1.nodes[i] == si);
            assert forall|t: Term| t > si.current_term implies !#[trigger] g2.votes.contains_key(
                (i as u64, t),
            ) by {
                assert(!g.votes.contains_key((i as u64, t)));
            }
            if si.role != Role::Follower {
                assert forall|v: NodeId| #[trigger] si.votes_received.contains(v) implies {
                    &&& v < n
                    &&& g2.votes.contains_key((v, si.current_term))
                    &&& g2.votes[(v, si.current_term)] == i
                } by {
                    assert(g.votes.contains_key((v, si.current_term)));
                }
            }
        } else {
            assert(c1.nodes[i] == s2);
            // the vote held now is the one on record
            if s2.voted_for is None {
                if s2.current_term == s.current_term {
                    assert(s.voted_for is None);
                }
                assert(!g.votes.contains_key((id, s2.current_term)));
            }
            assert forall|t: Term| t > s2.current_term implies !#[trigger] g2.votes.contains_key(
                (i as u64, t),
            ) by {
                assert(!g.votes.contains_key((id, t)));
            }
            if s2.role != Role::Follower {
                assert forall|v: NodeId| #[trigger] s2.votes_received.contains(v) implies {
                    &&& v < n
                    &&& g2.votes.contains_key((v, s2.current_term))
                    &&& g2.votes[(v, s2.current_term)] == i
                } by {
                    if e is Tick && s2.votes_received == Set::<NodeId>::empty().insert(s.id) {
                        assert(v == id);
                    } else if s.votes_received.contains(v) {
                        assert(g.votes.contains_key((v, s.current_term)));
                    } else {
                        assert(vote_arrives(e, s2.current_term, v));
                    }
                }
            }
            if s2.role == Role::Leader {
                assert(quorum_of(s2) == quorum_of(s));
            }
        }
    }
    assert forall|k: int| 0 <= k < c1.net.queue.len() implies #[trigger] message_ok(
        c1.net.queue[k].from,
        c1.net.queue[k].to,
        c1.net.queue[k].message,
        n,
        g2,
        c1.time,
    ) by {
        assert(message_ok(
            c.net.queue[k].from,
            c.net.queue[k].to,
            c.net.queue[k].message,
            n,
            g,
            c.time,
        ));
        lemma_message_ok_grows(
            c.net.queue[k].from,
            c.net.queue[k].to,
            c.net.queue[k].message,
            n,
            g,
            g2,
            c.time,
            c.time,
        );
    }
    assert(cluster_inv(c1, g2));
    assert(actions_ok(acts, id, n, g2, c.time)) by {
        assert forall|k: int| 0 <= k < acts.len() implies match #[trigger] acts[k] {
            ActionView::Send { to, message } => message_ok(id, to, message, n, g2, c.time),
            ActionView::Apply { .. } => true,
        } by {
            match acts[k] {
                ActionView::Send { to, message } => {
                    match message {
                        MessageView::RequestVoteReply(r) => {
                            if r.vote_granted {
                                match e {
                                    EventView::Message { from, message: m } => {
                                        match m {
                                            MessageView::RequestVote(req) => {
                                                assert(req.candidate_id == from);
                                            },
                                            _ => {},
                                        }
                                    },
                                    _ => {},
                                }
                            }
                        },
                        _ => {},
                    }
                },
                ActionView::Apply { .. } => {},
            }
        }
    }
    lemma_dispatch(c1, g2, id, acts);
}

/// The node ids of a cluster of `n` nodes.
pub open spec fn ids_below(n: nat) -> Set<NodeId> {
    Set::new(|v: NodeId| v < n)
}

/// There are exactly `n` ids below `n`.
pub proof fn lemma_ids_below(n: nat)
    requires
        n <= u64::MAX,
    ensures
        ids_below(n).finite(),
        ids_below(n).len() == n,
    decreases n,
{
    if n == 0 {
        assert(ids_below(0) =~= Set::<NodeId>::empty());
    } else {
        lemma_ids_below((n - 1) as nat);
        assert(ids_below(n) =~= ids_below((n - 1) as nat).insert((n - 1) as u64));
    }
}

/// Election Safety: no two nodes are leaders of the same term.
pub open spec fn one_leader_per_term(c: ClusterView) -> bool {
    forall|i: int, j: int|
        0 <= i < c.nodes.len() && 0 <= j < c.nodes.len() && i != j && c.nodes[i].role
            == Role::Leader && c.nodes[j].role == Role::Leader ==> c.nodes[i].current_term
            != c.nodes[j].current_term
}

/// Every cluster that keeps the invariant has at most one leader per term:
/// two leaders of one term would each hold a majority of that term's votes,
/// and no node votes twice in a term.
pub proof fn lemma_one_leader_per_term(c: ClusterView, g: ClusterGhost)
    requires
        cluster_inv(c, g),
    ensures
        one_leader_per_term(c),
{
    let n = c.nodes.len();
    assert forall|i: int, j: int|
        0 <= i < n && 0 <= j < n && i != j && c.nodes[i].role == Role::Leader && c.nodes[j].role
            == Role::Leader implies c.nodes[i].current_term != c.nodes[j].current_term by {
        assert(node_ok(c, g, i));
        assert(node_ok(c, g, j));
        let si = c.nodes[i];
        let sj = c.nodes[j];
        if si.current_term == sj.current_term {
            let t = si.current_term;
            let a = si.votes_received;
            let b = sj.votes_received;
            lemma_ids_below(n);
            assert(a.disjoint(b)) by {
                assert forall|v: NodeId| a.contains(v) implies !b.contains(v) by {
                    assert(g.votes[(v, t)] == i);
                    if b.contains(v) {
                        assert(g.votes[(v, t)] == j);
                    }
                }
            }
            vstd::set_lib::lemma_set_disjoint_lens(a, b);
            assert((a + b).subset_of(ids_below(n))) by {
                assert forall|v: NodeId| (a + b).contains(v) implies ids_below(n).contains(v) by {
                    if a.contains(v) {
                        assert(v < n);
                    } else {
                        assert(b.contains(v));
                    }
                }
            }
            vstd::set_lib::lemma_len_subset(a + b, ids_below(n));
            assert(si.peers.len() == n - 1);
            assert(quorum_of(si) == n / 2 + 1);
            assert(false);
        }
    }
}

/// Every message of the queue agrees with the record.
pub open spec fn queue_ok(q: Seq<InFlightView>, n: nat, g: ClusterGhost, time: u64) -> bool {
    forall|k: int|
        0 <= k < q.len() ==> #[trigger] message_ok(q[k].from, q[k].to, q[k].message, n, g, time)
}

/// Every delivery agrees with the record.
pub open spec fn deliveries_ok(ds: Seq<Delivery>, n: nat, g: ClusterGhost, time: u64) -> bool {
    forall|k: int|
        0 <= k < ds.len() ==> #[trigger] message_ok(ds[k].from, ds[k].to, ds[k].message, n, g, time)
}

/// What an acceptable queue delivers, and what it keeps, is acceptable.
pub proof fn lemma_delivery_ok(q: Seq<InFlightView>, iso: Set<NodeId>, t: u64, n: nat, g: ClusterGhost, time: u64)
    requires
        queue_ok(q, n, g, time),
    ensures
        deliveries_ok(delivered_of(q, iso, t), n, g, time),
        queue_ok(pending_of(q, t), n, g, time),
    decreases q.len(),
{
    if q.len() > 0 {
        let init = q.drop_last();
        assert(queue_ok(init, n, g, time)) by {
            assert forall|k: int| 0 <= k < init.len() implies #[trigger] message_ok(
                init[k].from,
                init[k].to,
                init[k].message,
                n,
                g,
                time,
            ) by {
                assert(init[k] == q[k]);
            }
        }
        lemma_delivery_ok(init, iso, t, n, g, time);
        assert(message_ok(
            q[q.len() - 1].from,
            q[q.len() - 1].to,
            q[q.len() - 1].message,
            n,
            g,
            time,
        ));
        let d = delivered_of(q, iso, t);
        let d0 = delivered_of(init, iso, t);
        assert forall|k: int| 0 <= k < d.len() implies #[trigger] message_ok(
            d[k].from,
            d[k].to,
            d[k].message,
            n,
            g,
            time,
        ) by {
            if k < d0.len() {
                assert(d[k] == d0[k]);
            }
        }
        let p = pending_of(q, t);
        let p0 = pending_of(init, t);
        assert forall|k: int| 0 <= k < p.len() implies #[trigger] message_ok(
            p[k].from,
            p[k].to,
            p[k].message,
            n,
            g,
            time,
        ) by {
            if k < p0.len() {
                assert(p[k] == p0[k]);
            }
        }
    }
}

/// Advancing the clock and dropping what was delivered keeps the invariant.
pub proof fn lemma_clock_advance(c: ClusterView, g: ClusterGhost)
    requires
        cluster_inv(c, g),
        c.time < u64::MAX,
    ensures
        ({
            let t = (c.time + 1) as u64;
            let c1 = ClusterView {
                time: t,
                net: NetworkView { queue: pending_of(c.net.queue, t), ..c.net },
                ..c
            };
            &&& cluster_inv(c1, g)
            &&& deliveries_ok(delivered_of(c.net.queue, c.net.isolated, t), c.nodes.len(), g, c.time)
        }),
{
    let t = (c.time + 1) as u64;
    let n = c.nodes.len();
    lemma_delivery_ok(c.net.queue, c.net.isolated, t, n, g, c.time);
    let c1 = ClusterView {
        time: t,
        net: NetworkView { queue: pending_of(c.net.queue, t), ..c.net },
        ..c
    };
    let p = pending_of(c.net.queue, t);
    assert forall|k: int| 0 <= k < p.len() implies #[trigger] message_ok(
        p[k].from,
        p[k].to,
        p[k].message,
        n,
        g,
        t,
    ) by {
        assert(message_ok(p[k].from, p[k].to, p[k].message, n, g, c.time));
        lemma_message_ok_grows(p[k].from, p[k].to, p[k].message, n, g, g, c.time, t);
    }
    assert forall|i: int| 0 <= i < n implies #[trigger] node_ok(c1, g, i) by {
        assert(node_ok(c, g, i));
    }
}

/// Raising the budget by one keeps the invariant while it stays in range.
pub proof fn lemma_budget_grows(c: ClusterView, g: ClusterGhost)
    requires
        cluster_inv(c, g),
        g.budget + 3 < u64::MAX,
    ensures
        cluster_inv(c, ClusterGhost { budget: g.budget + 1, ..g }),
        ghost_grows(g, ClusterGhost { budget: g.budget + 1, ..g }),
{
    let g2 = ClusterGhost { budget: g.budget + 1, ..g };
    let n = c.nodes.len();
    assert forall|i: int| 0 <= i < n implies #[trigger] node_ok(c, g2, i) by {
        assert(node_ok(c, g, i));
    }
    assert forall|k: int| 0 <= k < c.net.queue.len() implies #[trigger] message_ok(
        c.net.queue[k].from,
        c.net.queue[k].to,
        c.net.queue[k].message,
        n,
        g2,
        c.time,
    ) by {
        lemma_message_ok_grows(
            c.net.queue[k].from,
            c.net.queue[k].to,
            c.net.queue[k].message,
            n,
            g,
            g2,
            c.time,
            c.time,
        );
    }
}

/// A tick advances the clock by one.
pub proof fn lemma_tick_time(c: ClusterView)
    requires
        c.time < u64::MAX,
        c.nodes.len() <= u64::MAX,
    ensures
        tick_of(c).time == c.time + 1,
{
    let t = (c.time + 1) as u64;
    let c1 = ClusterView {
        time: t,
        net: NetworkView { queue: pending_of(c.net.queue, t), ..c.net },
        ..c
    };
    let ds = delivered_of(c.net.queue, c.net.isolated, t);
    lemma_deliver_all_time(c1, ds);
    lemma_tick_nodes_time(deliver_all(c1, ds), c.nodes.len());
}

/// Routing actions keeps the clock and the number of nodes.
pub proof fn lemma_dispatch_time(c: ClusterView, src: NodeId, acts: Seq<ActionView>)
    ensures
        dispatch_of(c, src, acts).time == c.time,
        dispatch_of(c, src, acts).nodes == c.nodes,
    decreases acts.len(),
{
    if acts.len() > 0 {
        lemma_dispatch_time(c, src, acts.drop_last());
    }
}

/// Delivering keeps the clock and the number of nodes.
pub proof fn lemma_deliver_all_time(c: ClusterView, ds: Seq<Delivery>)
    ensures
        deliver_all(c, ds).time == c.time,
        deliver_all(c, ds).nodes.len() == c.nodes.len(),
    decreases ds.len(),
{
    if ds.len() > 0 {
        lemma_deliver_all_time(c, ds.drop_last());
        let c1 = deliver_all(c, ds.drop_last());
        let d = ds.last();
        if d.to < c1.nodes.len() {
            let r = step_of(c1.nodes[d.to as int], EventView::Message { from: d.from, message: d.message });
            lemma_dispatch_time(ClusterView { nodes: c1.nodes.update(d.to as int, r.0), ..c1 }, d.to, r.1);
        }
    }
}

/// Ticking nodes keeps the clock and the number of nodes.
pub proof fn lemma_tick_nodes_time(c: ClusterView, k: nat)
    requires
        k <= c.nodes.len() <= u64::MAX,
    ensures
        tick_nodes(c, k).time == c.time,
        tick_nodes(c, k).nodes.len() == c.nodes.len(),
    decreases k,
{
    if k > 0 {
        lemma_tick_nodes_time(c, (k - 1) as nat);
        let c1 = tick_nodes(c, (k - 1) as nat);
        let id = (k - 1) as u64;
        let r = step_of(c1.nodes[id as int], EventView::Tick);
        lemma_dispatch_time(ClusterView { nodes: c1.nodes.update(id as int, r.0), ..c1 }, id, r.1);
    }
}

/// The leader found among nodes is one of them, and a leader.
pub proof fn lemma_leader_in_range(c: ClusterView, g: ClusterGhost)
    requires
        cluster_inv(c, g),
    ensures
        leader_of(c) matches Some(l) ==> l < c.nodes.len() && c.nodes[l as int].role == Role::Leader,
{
    lemma_leader_among(c, g, c.nodes.len());
}

/// The leader among nodes `0 .. k` is one of them, and a leader.
pub proof fn lemma_leader_among(c: ClusterView, g: ClusterGhost, k: nat)
    requires
        cluster_inv(c, g),
        k <= c.nodes.len(),
    ensures
        leader_among(c.nodes, k) matches Some(l) ==> l < k && c.nodes[l as int].role == Role::Leader,
    decreases k,
{
    if k > 0 {
        lemma_leader_among(c, g, (k - 1) as nat);
        assert(node_ok(c, g, k - 1));
    }
}

/// The invariant does not look at the partition.
pub proof fn lemma_inv_ignores_partition(c: ClusterView, c2: ClusterView, g: ClusterGhost)
    requires
        cluster_inv(c, g),
        c2 == (ClusterView { net: NetworkView { isolated: c2.net.isolated, ..c.net }, ..c }),
    ensures
        cluster_inv(c2, g),
{
    assert forall|i: int| 0 <= i < c2.nodes.len() implies #[trigger] node_ok(c2, g, i) by {
        assert(node_ok(c, g, i));
    }
}

/// Node `b` applied at index `i` a command that an earlier node applied
/// differently.
pub open spec fn diverges_at(c: ClusterView, b: int, i: LogIndex) -> bool {
    &&& 0 <= b < c.applied.len()
    &&& c.applied[b].contains_key(i)
    &&& exists|a: int|
        0 <= a < b && #[trigger] c.applied[a].contains_key(i) && c.applied[a][i] != c.applied[b][i]
}

/// State Machine Safety as the simulation records it: nodes that applied an
/// entry at the same index applied the same command.
pub open spec fn applied_agree(c: ClusterView) -> bool {
    forall|a: int, b: int, i: LogIndex|
        0 <= a < c.applied.len() && 0 <= b < c.applied.len() && #[trigger] c.applied[a].contains_key(i)
            && #[trigger] c.applied[b].contains_key(i) ==> c.applied[a][i] == c.applied[b][i]
}

/// `(b, i)` is the first divergence in node order, then index order.
pub open spec fn first_divergence(c: ClusterView, b: int, i: LogIndex) -> bool {
    &&& diverges_at(c, b, i)
    &&& forall|b2: int, i2: LogIndex|
        #[trigger] diverges_at(c, b2, i2) ==> b < b2 || (b == b2 && i <= i2)
}

/// The report of a divergence at index `i`.
pub open spec fn divergence_text(i: LogIndex) -> Seq<char> {
    "divergent command applied at index "@ + crate::text::decimal(i as nat)
}

/// The report of `count` leaders in term `t`.
pub open spec fn leaders_text(t: Term, count: nat) -> Seq<char> {
    "term "@ + crate::text::decimal(t as nat) + " has "@ + crate::text::decimal(count) + " leaders"@
}

/// The records agree exactly when no node diverges from an earlier one.
pub proof fn lemma_agree_iff_no_divergence(c: ClusterView)
    ensures
        applied_agree(c) <==> forall|b: int, i: LogIndex| !#[trigger] diverges_at(c, b, i),
{
    if applied_agree(c) {
        assert forall|b: int, i: LogIndex| !#[trigger] diverges_at(c, b, i) by {
            if diverges_at(c, b, i) {
                let a = choose|a: int|
                    0 <= a < b && #[trigger] c.applied[a].contains_key(i) && c.applied[a][i]
                        != c.applied[b][i];
            }
        }
    }
    if forall|b: int, i: LogIndex| !#[trigger] diverges_at(c, b, i) {
        assert forall|a: int, b: int, i: LogIndex|
            0 <= a < c.applied.len() && 0 <= b < c.applied.len() && #[trigger] c.applied[a].contains_key(
                i,
            ) && #[trigger] c.applied[b].contains_key(i) implies c.applied[a][i] == c.applied[b][i] by {
            if a < b {
                assert(!diverges_at(c, b, i));
            } else if b < a {
                assert(!diverges_at(c, a, i));
            }
        }
    }
}

/// Ticks until a leader exists, at most `max` times.
pub open spec fn until_leader_of(c: ClusterView, max: nat) -> ClusterView
    decreases max,
{
    if max == 0 || leader_of(c) is Some {
        c
    } else {
        until_leader_of(tick_of(c), (max - 1) as nat)
    }
}

/// Among nodes `0 .. k`, the leader found is one of them with the highest
/// term of every leader there, and none is found only when none leads.
pub proof fn lemma_leader_among_highest(c: ClusterView, g: ClusterGhost, k: nat)
    requires
        cluster_inv(c, g),
        k <= c.nodes.len(),
    ensures
        leader_among(c.nodes, k) matches Some(l) ==> {
            &&& l < k
            &&& c.nodes[l as int].role == Role::Leader
            &&& forall|i: int| 0 <= i < k && c.nodes[i].role == Role::Leader ==> c.nodes[i].current_term
                <= c.nodes[l as int].current_term
        },
        leader_among(c.nodes, k) is None ==> forall|i: int| 0 <= i < k ==> c.nodes[i].role != Role::Leader,
    decreases k,
{
    if k > 0 {
        lemma_leader_among_highest(c, g, (k - 1) as nat);
        assert(node_ok(c, g, k - 1));
    }
}

/// The current leader is a leader of the highest term among all leaders, and
/// there is none only when no node leads.
pub proof fn lemma_leader_highest(c: ClusterView, g: ClusterGhost)
    requires
        cluster_inv(c, g),
    ensures
        leader_of(c) matches Some(l) ==> {
            &&& l < c.nodes.len()
            &&& c.nodes[l as int].role == Role::Leader
            &&& forall|i: int|
                0 <= i < c.nodes.len() && c.nodes[i].role == Role::Leader ==> c.nodes[i].current_term
                    <= c.nodes[l as int].current_term
        },
        leader_of(c) is None ==> forall|i: int| 0 <= i < c.nodes.len() ==> c.nodes[i].role != Role::Leader,
{
    lemma_leader_among_highest(c, g, c.nodes.len());
}

} // verus!
