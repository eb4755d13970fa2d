//! Drives a virtual multi-node Raft cluster on a logical clock and checks
//! Raft's safety properties.
use vstd::prelude::*;

use crate::applied::{indexed_view, AppliedCommands};
use crate::cluster_model::{
    config_for, deliver_all, dispatch_of, event_ok, ghost_after, ghost_grows, initial_cluster,
    leader_among, leader_of, lemma_budget_grows, lemma_clock_advance, lemma_one_leader_per_term,
    lemma_step_node, one_leader_per_term, peers_for, propose_of, run_of, step_node, tick_nodes,
    tick_of, cluster_inv, deliveries_ok, message_ok, node_ok, ClusterGhost, ClusterView,
    MAX_NODES, applied_agree, diverges_at, divergence_text, first_divergence,
    lemma_agree_iff_no_divergence,
};
use crate::event::{actions_view, Action, Event, EventView};
use crate::history::{empty_history, msg_safe, safety_inv, History};
use crate::history_frame::{history_after, history_grows};
use crate::safety::{
    applied_kept, deliveries_safe, lemma_applied_kept_trans, lemma_clock_safe, lemma_initial_safe,
    lemma_safety_ignores, lemma_step_applied_kept, lemma_step_safe,
};
use crate::network::{deliveries_view, delivered_of, pending_of, NetworkView, VirtualNetwork};
use crate::node::{Config, RaftNode};
use crate::node_laws::lemma_step_term;
use crate::node_model::{step_of, NodeView};
use crate::types::{LogIndex, NodeId, Role, Term};

verus! {

/// A simulated cluster of Raft nodes over a virtual network.
pub struct Cluster {
    /// Node `i` has id `i`.
    nodes: Vec<RaftNode>,
    network: VirtualNetwork,
    /// Per-node record of applied entries, for the consistency safety check.
    applied: Vec<AppliedCommands>,
    time: u64,
    record: Ghost<ClusterGhost>,
    history: Ghost<History>,
}

/// The views of a list of nodes.
pub open spec fn nodes_view(nodes: Seq<RaftNode>) -> Seq<NodeView> {
    nodes.map_values(|n: RaftNode| n@)
}

/// The maps of a list of applied-command stores.
pub open spec fn applied_view(applied: Seq<AppliedCommands>) -> Seq<Map<LogIndex, Seq<u8>>> {
    applied.map_values(|a: AppliedCommands| a.map())
}

impl View for Cluster {
    type V = ClusterView;

    closed spec fn view(&self) -> ClusterView {
        ClusterView {
            nodes: nodes_view(self.nodes@),
            net: self.network@,
            applied: applied_view(self.applied@),
            time: self.time,
        }
    }
}

impl Cluster {
    /// What every cluster built by `new` and driven by its methods satisfies.
    pub closed spec fn inv(&self) -> bool {
        &&& cluster_inv(self@, self.record@)
        &&& safety_inv(self@, self.record@, self.history@)
        &&& self.nodes@.len() == self@.nodes.len()
        &&& forall|i: int| 0 <= i < self.applied@.len() ==> #[trigger] self.applied@[i].wf()
    }

    /// How many proposals the cluster has taken so far.
    pub closed spec fn proposals_made(&self) -> nat {
        self.record@.budget
    }

    /// Builds an `n`-node cluster with staggered election timeouts (so a leader
    /// emerges deterministically) and frequent heartbeats.
    pub fn new(node_count: u64) -> (c: Self)
        requires
            node_count <= MAX_NODES,
        ensures
            c.inv(),
            c@ == initial_cluster(node_count as nat),
            c.proposals_made() == 0,
    {
        let ghost n = node_count as nat;
        let mut nodes: Vec<RaftNode> = Vec::new();
        let mut applied: Vec<AppliedCommands> = Vec::new();
        let mut id: u64 = 0;
        while id < node_count
            invariant
                id <= node_count <= MAX_NODES,
                n == node_count,
                nodes@.len() == id,
                applied@.len() == id,
                nodes_view(nodes@) == initial_cluster(n).nodes.subrange(0, id as int),
                applied_view(applied@) == initial_cluster(n).applied.subrange(0, id as int),
                forall|i: int| 0 <= i < id ==> #[trigger] nodes@[i].wf(),
                forall|i: int| 0 <= i < id ==> #[trigger] applied@[i].wf(),
            decreases node_count - id,
        {
            let mut peers: Vec<NodeId> = Vec::new();
            let mut p: u64 = 0;
            while p < node_count
                invariant
                    p <= node_count,
                    id < node_count,
                    n == node_count,
                    peers@ == peers_for(n, id).subrange(0, if p <= id { p as int } else { p - 1 }),
                decreases node_count - p,
            {
                if p != id {
                    peers.push(p);
                }
                p = p + 1;
                assert(peers@ =~= peers_for(n, id).subrange(
                    0,
                    if p <= id { p as int } else { p - 1 },
                ));
            }
            assert(peers@ =~= peers_for(n, id));
            let config = Config { election_timeout: 5 + (id as u32) * 2, heartbeat_timeout: 1 };
            assert(config == config_for(id as int));
            let node = RaftNode::new(id, peers, config);
            let ghost nodes0 = nodes@;
            let ghost applied0 = applied@;
            nodes.push(node);
            let a = AppliedCommands::new();
            applied.push(a);
            id = id + 1;
            assert(nodes_view(nodes@) =~= initial_cluster(n).nodes.subrange(0, id as int)) by {
                assert(nodes_view(nodes@) =~= nodes_view(nodes0).push(node@));
            }
            assert(applied_view(applied@) =~= initial_cluster(n).applied.subrange(0, id as int)) by {
                assert(a.map() =~= Map::<LogIndex, Seq<u8>>::empty());
                assert(applied_view(applied@) =~= applied_view(applied0).push(a.map()));
            }
        }
        let c = Cluster {
            nodes,
            network: VirtualNetwork::new(1),
            applied,
            time: 0,
            record: Ghost(ClusterGhost { votes: Map::empty(), budget: 0 }),
            history: Ghost(empty_history()),
        };
        proof {
            lemma_initial_safe(n);
        }
        assert(nodes_view(nodes@) =~= initial_cluster(n).nodes);
        assert(applied_view(applied@) =~= initial_cluster(n).applied);
        assert(c@.net =~= initial_cluster(n).net);
        assert(c@ == initial_cluster(n));
        assert forall|i: int| 0 <= i < n implies #[trigger] node_ok(c@, c.record@, i) by {
            assert(c@.nodes[i] == nodes@[i]@);
            assert(nodes@[i].wf());
        }
        c
    }
    /// Routes a node's emitted actions: sends go to the network; applies are
    /// recorded for the consistency check.
    fn dispatch(&mut self, source: NodeId, actions: Vec<Action>)
        requires
            source < old(self).applied@.len(),
            old(self)@.time + old(self)@.net.delay <= u64::MAX,
            forall|i: int| 0 <= i < old(self).applied@.len() ==> #[trigger] old(self).applied@[i].wf(),
        ensures
            final(self)@ == dispatch_of(old(self)@, source, actions_view(actions@)),
            final(self).record == old(self).record,
            final(self).history == old(self).history,
            final(self).nodes == old(self).nodes,
            final(self).applied@.len() == old(self).applied@.len(),
            forall|i: int| 0 <= i < final(self).applied@.len() ==> #[trigger] final(self).applied@[i].wf(),
    {
        let ghost c0 = self@;
        let ghost acts = actions_view(actions@);
        let slots = self.applied.len();
        let slot = source as usize;
        assert(slot as int == source as int);
        for action in it: actions
            invariant
                slot as int == source as int,
                source < self.applied@.len(),
                self.applied@.len() == c0.applied.len(),
                self@.time == c0.time,
                self@.net.delay == c0.net.delay,
                c0.time + c0.net.delay <= u64::MAX,
                acts == actions_view(it.seq()),
                self@ == dispatch_of(c0, source, acts.subrange(0, it.index() as int)),
                self.record == old(self).record,
                self.history == old(self).history,
                self.nodes == old(self).nodes,
                forall|i: int| 0 <= i < self.applied@.len() ==> #[trigger] self.applied@[i].wf(),
        {
            let ghost k = it.index();
            let ghost before = self@;
            assert(source < self.applied@.len());
            assert(k < acts.len());
            proof {
                assert(acts.subrange(0, k + 1).drop_last() =~= acts.subrange(0, k as int));
                assert(acts.subrange(0, k + 1).last() == action@);
            }
            match action {
                Action::Send { to, message } => {
                    self.network.send(source, to, message, self.time);
                },
                Action::Apply { index, command } => {
                    let ghost cmd = command@;
                    let ghost before_applied = self.applied@;
                    self.applied[slot].insert(index, command);
                    assert(self.applied@ =~= before_applied.update(
                        source as int,
                        self.applied@[source as int],
                    ));
                    assert(applied_view(self.applied@) =~= before.applied.update(
                        source as int,
                        before.applied[source as int].insert(index, cmd),
                    ));
                    assert forall|i: int| 0 <= i < self.applied@.len() implies #[trigger] self.applied@[i].wf() by {
                        if i != source {
                            assert(self.applied@[i] == before_applied[i]);
                        }
                    }
                },
            }
        }
        assert(acts.subrange(0, acts.len() as int) =~= acts);
    }

    /// Node `id` takes event `event`, its actions are routed, and the record
    /// follows it.
    fn step_and_dispatch(&mut self, id: NodeId, event: Event)
        requires
            old(self).inv(),
            id < old(self)@.nodes.len(),
            event_ok(old(self)@, old(self).record@, id, event@),
            event@ matches EventView::Message { from, message } ==> msg_safe(
                old(self).record@,
                old(self).history@,
                old(self)@.nodes.len(),
                from,
                id,
                message,
            ),
            old(self)@.time < u64::MAX,
        ensures
            final(self).inv(),
            final(self)@ == step_node(old(self)@, id, event@),
            final(self)@.nodes == old(self)@.nodes.update(
                id as int,
                step_of(old(self)@.nodes[id as int], event@).0,
            ),
            final(self)@.time == old(self)@.time,
            ghost_grows(old(self).record@, final(self).record@),
            history_grows(old(self).history@, final(self).history@),
            applied_kept(old(self)@, final(self)@),
            final(self).record@.budget == old(self).record@.budget,
    {
        let ghost c0 = self@;
        let ghost g0 = self.record@;
        let ghost h0 = self.history@;
        let ghost e = event@;
        proof {
            lemma_step_node(c0, g0, id, e);
            lemma_step_safe(c0, g0, h0, id, e);
            lemma_step_applied_kept(c0, g0, h0, id, e);
            assert(self.nodes@[id as int]@ == c0.nodes[id as int]);
            assert(node_ok(c0, g0, id as int));
        }
        let ghost nodes0 = self.nodes@;
        let actions = self.nodes[id as usize].step(event);
        let ghost s2 = step_of(c0.nodes[id as int], e).0;
        proof {
            assert(nodes_view(self.nodes@) =~= c0.nodes.update(id as int, s2));
        }
        self.dispatch(id, actions);
        self.record = Ghost(ghost_after(g0, id, s2));
        self.history = Ghost(history_after(h0, id, c0.nodes[id as int], e));
        proof {
            assert forall|i: int| 0 <= i < self.nodes@.len() implies #[trigger] self.nodes@[i].wf() by {
                assert(self.nodes@[i]@ == self@.nodes[i]);
                assert(node_ok(self@, self.record@, i));
            }
        }
    }

    /// Advances the logical clock by one step: deliver due messages, then tick
    /// every node, dispatching all resulting actions.
    pub fn tick(&mut self)
        requires
            old(self).inv(),
            old(self)@.time + 1 < u64::MAX,
        ensures
            final(self).inv(),
            final(self)@ == tick_of(old(self)@),
            applied_kept(old(self)@, final(self)@),
            final(self).proposals_made() == old(self).proposals_made(),
    {
        let ghost c0 = self@;
        let ghost g0 = self.record@;
        let ghost h0 = self.history@;
        proof {
            lemma_clock_advance(c0, g0);
            lemma_clock_safe(c0, g0, h0);
        }
        self.time = self.time + 1;
        let due = self.network.deliver_due(self.time);
        let ghost c1 = self@;
        let ghost ds = delivered_of(c0.net.queue, c0.net.isolated, self.time);
        let ghost n = c0.nodes.len();
        assert(c1 == ClusterView {
            time: (c0.time + 1) as u64,
            net: NetworkView { queue: pending_of(c0.net.queue, (c0.time + 1) as u64), ..c0.net },
            ..c0
        });
        assert forall|i: int| 0 <= i < n implies #[trigger] self@.nodes[i].current_term <= c0.time by {
            assert(node_ok(c0, g0, i));
        }
        for item in it: due
            invariant
                self.inv(),
                n == self@.nodes.len(),
                self@.time == c1.time,
                self@.time == c0.time + 1,
                c0.time + 1 < u64::MAX,
                ds == deliveries_view(it.seq()),
                self@ == deliver_all(c1, ds.subrange(0, it.index() as int)),
                deliveries_ok(ds.subrange(it.index() as int, ds.len() as int), n, self.record@, c0.time),
                deliveries_safe(ds.subrange(it.index() as int, ds.len() as int), self.record@, self.history@, n),
                applied_kept(c0, self@),
                forall|i: int| 0 <= i < n ==> #[trigger] self@.nodes[i].current_term <= c0.time,
                self.record@.budget == g0.budget,
        {
            let ghost k = it.index();
            let ghost before = self@;
            let ghost g_before = self.record@;
            let ghost h_before = self.history@;
            assert(item == it.seq()[k as int]);
            let (from, to, message) = item;
            proof {
                assert(ds.subrange(0, k + 1).drop_last() =~= ds.subrange(0, k as int));
                assert(ds.subrange(0, k + 1).last() == ds[k as int]);
                assert(ds[k as int] == ds.subrange(k as int, ds.len() as int)[0]);
            }
            if to < self.nodes.len() as u64 {
                proof {
                    assert(ds[k as int] == crate::network::Delivery { from, to, message: message@ });
                    let sub = ds.subrange(k as int, ds.len() as int);
                    assert(sub[0] == ds[k as int]);
                    assert(message_ok(sub[0].from, sub[0].to, sub[0].message, n, g_before, c0.time));
                    assert(message_ok(from, to, message@, n, g_before, c0.time));
                    assert(msg_safe(g_before, h_before, n, sub[0].from, sub[0].to, sub[0].message));
                    crate::cluster_model::lemma_message_ok_grows(from, to, message@, n, g_before, g_before, c0.time, self@.time);
                    lemma_step_node(before, g_before, to, EventView::Message { from, message: message@ });
                    lemma_step_term(before.nodes[to as int], EventView::Message { from, message: message@ });
                }
                self.step_and_dispatch(to, Event::Message { from, message });
                proof {
                    lemma_applied_kept_trans(c0, before, self@);
                    let rest = ds.subrange(k + 1, ds.len() as int);
                    assert forall|j: int| 0 <= j < rest.len() implies #[trigger] message_ok(
                        rest[j].from,
                        rest[j].to,
                        rest[j].message,
                        n,
                        self.record@,
                        c0.time,
                    ) by {
                        assert(rest[j] == ds.subrange(k as int, ds.len() as int)[j + 1]);
                        crate::cluster_model::lemma_message_ok_grows(
                            rest[j].from,
                            rest[j].to,
                            rest[j].message,
                            n,
                            g_before,
                            self.record@,
                            c0.time,
                            c0.time,
                        );
                    }
                    assert forall|j: int| 0 <= j < rest.len() implies #[trigger] msg_safe(
                        self.record@,
                        self.history@,
                        n,
                        rest[j].from,
                        rest[j].to,
                        rest[j].message,
                    ) by {
                        assert(rest[j] == ds.subrange(k as int, ds.len() as int)[j + 1]);
                        crate::history_frame::lemma_grows_msg(
                            g_before,
                            self.record@,
                            h_before,
                            self.history@,
                            n,
                            rest[j].from,
                            rest[j].to,
                            rest[j].message,
                        );
                    }
                    assert forall|i: int| 0 <= i < n implies #[trigger] self@.nodes[i].current_term <= c0.time by {
                        if i != to {
                            assert(self@.nodes[i] == before.nodes[i]);
                        }
                    }
                }
            } else {
                proof {
                    assert(ds.subrange(k + 1, ds.len() as int) =~= ds.subrange(k as int, ds.len() as int).drop_first());
                }
            }
        }
        assert(ds.subrange(0, ds.len() as int) =~= ds);
        let ghost c2 = self@;
        let count = self.nodes.len();
        let mut id: usize = 0;
        while id < count
            invariant
                self.inv(),
                count == n,
                n == self@.nodes.len(),
                id <= n,
                self@.time == c0.time + 1,
                c0.time + 1 < u64::MAX,
                self@ == tick_nodes(c2, id as nat),
                forall|i: int| id <= i < n ==> #[trigger] self@.nodes[i].current_term <= c0.time,
                self.record@.budget == g0.budget,
                applied_kept(c0, self@),
            decreases n - id,
        {
            let ghost before = self@;
            self.step_and_dispatch(id as u64, Event::Tick);
            proof {
                lemma_applied_kept_trans(c0, before, self@);
                assert forall|i: int| id + 1 <= i < n implies #[trigger] self@.nodes[i].current_term <= c0.time by {
                    assert(self@.nodes[i] == before.nodes[i]);
                }
            }
            id = id + 1;
        }
    }
    /// Advances the clock by `ticks` steps.
    pub fn run(&mut self, ticks: u64)
        requires
            old(self).inv(),
            old(self)@.time + ticks + 1 < u64::MAX,
        ensures
            final(self).inv(),
            final(self)@ == run_of(old(self)@, ticks as nat),
            applied_kept(old(self)@, final(self)@),
            final(self).proposals_made() == old(self).proposals_made(),
    {
        let ghost c0 = self@;
        let mut k: u64 = 0;
        while k < ticks
            invariant
                k <= ticks,
                self.inv(),
                self@ == run_of(c0, k as nat),
                applied_kept(c0, self@),
                self@.time == c0.time + k,
                c0.time + ticks + 1 < u64::MAX,
                self.proposals_made() == old(self).proposals_made(),
            decreases ticks - k,
        {
            let ghost before = self@;
            self.tick();
            proof {
                lemma_applied_kept_trans(c0, before, self@);
            }
            k = k + 1;
            proof {
                crate::cluster_model::lemma_tick_time(run_of(c0, (k - 1) as nat));
            }
        }
    }

    /// The current leader (the leader with the highest term, if any).
    pub fn leader(&self) -> (r: Option<NodeId>)
        requires
            self.inv(),
        ensures
            r == leader_of(self@),
            r matches Some(l) ==> {
                &&& l < self@.nodes.len()
                &&& self@.nodes[l as int].role == Role::Leader
                &&& forall|i: int|
                    0 <= i < self@.nodes.len() && self@.nodes[i].role == Role::Leader
                        ==> self@.nodes[i].current_term <= self@.nodes[l as int].current_term
            },
            r is None ==> forall|i: int| 0 <= i < self@.nodes.len() ==> self@.nodes[i].role != Role::Leader,
    {
        proof {
            crate::cluster_model::lemma_leader_highest(self@, self.record@);
        }
        let ghost nodes = self@.nodes;
        let mut best: Option<NodeId> = None;
        let mut best_term: Term = 0;
        let mut i: usize = 0;
        while i < self.nodes.len()
            invariant
                i <= nodes.len(),
                nodes == self@.nodes,
                self.inv(),
                best == leader_among(nodes, i as nat),
                best matches Some(b) ==> b < nodes.len() && best_term == nodes[b as int].current_term,
            decreases nodes.len() - i,
        {
            let node = &self.nodes[i];
            assert(node@ == nodes[i as int]);
            assert(node_ok(self@, self.record@, i as int));
            if node.is_leader() && (best.is_none() || best_term <= node.current_term()) {
                best = Some(node.id());
                best_term = node.current_term();
            }
            i = i + 1;
        }
        best
    }

    /// Proposes a command to the current leader. Returns false if there is none.
    pub fn propose(&mut self, command: Vec<u8>) -> (accepted: bool)
        requires
            old(self).inv(),
            old(self)@.time < u64::MAX,
            old(self).proposals_made() + 3 < u64::MAX,
        ensures
            final(self).inv(),
            (final(self)@, accepted) == propose_of(old(self)@, command@),
            applied_kept(old(self)@, final(self)@),
            final(self).proposals_made() <= old(self).proposals_made() + 1,
    {
        match self.leader() {
            Some(leader_id) => {
                proof {
                    lemma_budget_grows(self@, self.record@);
                    crate::cluster_model::lemma_leader_in_range(self@, self.record@);
                    assert(node_ok(self@, self.record@, leader_id as int));
                }
                proof {
                    lemma_safety_ignores(
                        self@,
                        self@,
                        self.record@,
                        ClusterGhost { budget: self.record@.budget + 1, ..self.record@ },
                        self.history@,
                    );
                }
                self.record = Ghost(ClusterGhost { budget: self.record@.budget + 1, ..self.record@ });
                self.step_and_dispatch(leader_id, Event::Propose { command });
                true
            },
            None => false,
        }
    }

    /// Isolates `nodes` from the rest of the cluster.
    pub fn partition(&mut self, nodes: &[NodeId])
        requires
            old(self).inv(),
        ensures
            final(self).inv(),
            final(self)@ == (ClusterView {
                net: NetworkView { isolated: nodes@.to_set(), ..old(self)@.net },
                ..old(self)@
            }),
            final(self).proposals_made() == old(self).proposals_made(),
    {
        self.network.partition(nodes);
        proof {
            crate::cluster_model::lemma_inv_ignores_partition(old(self)@, self@, self.record@);
            lemma_safety_ignores(old(self)@, self@, self.record@, self.record@, self.history@);
        }
    }

    /// Removes all partitions.
    pub fn heal(&mut self)
        requires
            old(self).inv(),
        ensures
            final(self).inv(),
            final(self)@ == (ClusterView {
                net: NetworkView { isolated: Set::empty(), ..old(self)@.net },
                ..old(self)@
            }),
            final(self).proposals_made() == old(self).proposals_made(),
    {
        self.network.heal();
        proof {
            crate::cluster_model::lemma_inv_ignores_partition(old(self)@, self@, self.record@);
            lemma_safety_ignores(old(self)@, self@, self.record@, self.record@, self.history@);
        }
    }

    /// The ids of the nodes, in increasing order.
    pub fn node_ids(&self) -> (ids: Vec<NodeId>)
        requires
            self.inv(),
        ensures
            ids@ == Seq::new(self@.nodes.len(), |i: int| i as u64),
    {
        let n = self.nodes.len();
        let mut ids: Vec<NodeId> = Vec::new();
        let mut i: usize = 0;
        while i < n
            invariant
                i <= n,
                n == self@.nodes.len(),
                n <= MAX_NODES,
                ids@ == Seq::new(i as nat, |j: int| j as u64),
            decreases n - i,
        {
            ids.push(i as u64);
            i = i + 1;
            assert(ids@ =~= Seq::new(i as nat, |j: int| j as u64));
        }
        ids
    }

    /// The term of `node`, if the cluster has such a node.
    pub fn term_of(&self, node: NodeId) -> (r: Option<Term>)
        requires
            self.inv(),
        ensures
            r == if node < self@.nodes.len() {
                Some(self@.nodes[node as int].current_term)
            } else {
                None::<Term>
            },
    {
        if node < self.nodes.len() as u64 {
            Some(self.nodes[node as usize].current_term())
        } else {
            None
        }
    }

    /// The committed command bytes applied at `index` on `node`, if any.
    pub fn applied_command(&self, node: NodeId, index: LogIndex) -> (r: Option<Vec<u8>>)
        requires
            self.inv(),
        ensures
            match r {
                Some(cmd) => node < self@.applied.len() && self@.applied[node as int].contains_key(index)
                    && self@.applied[node as int][index] == cmd@,
                None => !(node < self@.applied.len() && self@.applied[node as int].contains_key(index)),
            },
    {
        if node < self.applied.len() as u64 {
            let store = &self.applied[node as usize];
            assert(store.map() == self@.applied[node as int]);
            match store.get(index) {
                Some(cmd) => Some(crate::log::copy_bytes(cmd)),
                None => None,
            }
        } else {
            None
        }
    }

    /// All entries applied on `node`, in index order.
    pub fn applied_entries(&self, node: NodeId) -> (r: Vec<(LogIndex, Vec<u8>)>)
        requires
            self.inv(),
        ensures
            crate::applied::increasing_indices(indexed_view(r@)),
            crate::assoc::assoc_map(indexed_view(r@)) == if node < self@.applied.len() {
                self@.applied[node as int]
            } else {
                Map::<LogIndex, Seq<u8>>::empty()
            },
    {
        if node < self.applied.len() as u64 {
            let store = &self.applied[node as usize];
            assert(store.map() == self@.applied[node as int]);
            assert(store.wf());
            store.to_vec()
        } else {
            let r: Vec<(LogIndex, Vec<u8>)> = Vec::new();
            assert(indexed_view(r@) =~= Seq::<(LogIndex, Seq<u8>)>::empty());
            assert(crate::assoc::assoc_map(indexed_view(r@)) =~= Map::<LogIndex, Seq<u8>>::empty());
            r
        }
    }

    // --- Safety properties ---

    /// Election Safety: at most one leader is elected per term.
    pub fn check_one_leader_per_term(&self) -> (r: Result<(), String>)
        requires
            self.inv(),
        ensures
            r is Ok,
    {
        proof {
            lemma_one_leader_per_term(self@, self.record@);
        }
        let ghost c = self@;
        let n = self.nodes.len();
        // The smallest term held by more than one leader, with its leader count.
        let mut dup: Option<(Term, usize)> = None;
        let mut i: usize = 0;
        while i < n
            invariant
                i <= n,
                n == c.nodes.len(),
                c == self@,
                self.inv(),
                one_leader_per_term(c),
                dup is None,
            decreases n - i,
        {
            if self.nodes[i].is_leader() {
                assert(self.nodes@[i as int]@ == c.nodes[i as int]);
                let t = self.nodes[i].current_term();
                let mut count: usize = 0;
                let mut j: usize = 0;
                while j < n
                    invariant
                        j <= n,
                        i < n,
                        n == c.nodes.len(),
                        c == self@,
                        self.inv(),
                        one_leader_per_term(c),
                        c.nodes[i as int].role == Role::Leader,
                        t == c.nodes[i as int].current_term,
                        count == if i < j { 1usize } else { 0usize },
                    decreases n - j,
                {
                    assert(self.nodes@[j as int]@ == c.nodes[j as int]);
                    if self.nodes[j].is_leader() && self.nodes[j].current_term() == t {
                        count = count + 1;
                    }
                    j = j + 1;
                }
                if count > 1 {
                    let better = match dup {
                        None => true,
                        Some((d, _)) => t < d,
                    };
                    if better {
                        dup = Some((t, count));
                    }
                }
            }
            i = i + 1;
        }
        match dup {
            Some((term, count)) => {
                let mut msg = String::from_str("term ");
                msg.append(crate::text::decimal_string(term).as_str());
                msg.append(" has ");
                msg.append(crate::text::decimal_string(count as u64).as_str());
                msg.append(" leaders");
                Err(msg)
            },
            None => Ok(()),
        }
    }

    /// State Machine Safety: if two nodes have applied an entry at the same
    /// index, the commands must be identical (no committed-entry divergence).
    pub fn check_applied_consistency(&self) -> (r: Result<(), String>)
        requires
            self.inv(),
        ensures
            r is Ok,
            (r is Ok) == applied_agree(self@),
            r matches Err(msg) ==> exists|b: int, i: LogIndex| #[trigger] first_divergence(self@, b, i)
                && msg@ == divergence_text(i),
    {
        let ghost c = self@;
        proof {
            lemma_agree_iff_no_divergence(c);
            lemma_state_machine_safety(self);
        }
        let mut by_index = AppliedCommands::new();
        let n = self.applied.len();
        let mut b: usize = 0;
        while b < n
            invariant
                b <= n,
                n == c.applied.len(),
                c == self@,
                self.inv(),
                applied_agree(c),
                by_index.wf(),
                forall|a: int, i: LogIndex|
                    0 <= a < b && #[trigger] c.applied[a].contains_key(i) ==> by_index.map().contains_key(i)
                        && by_index.map()[i] == c.applied[a][i],
                forall|i: LogIndex|
                    #[trigger] by_index.map().contains_key(i) ==> exists|a: int|
                        0 <= a < b && #[trigger] c.applied[a].contains_key(i),
                forall|b2: int, i2: LogIndex| b2 < b ==> !#[trigger] diverges_at(c, b2, i2),
            decreases n - b,
        {
            let store = &self.applied[b];
            let ghost ls = store@;
            assert(store.wf());
            assert(store.map() == c.applied[b as int]);
            proof {
                crate::assoc::lemma_assoc_map(ls);
            }
            let mut k: usize = 0;
            while k < store.len()
                invariant
                    b < n,
                    n == c.applied.len(),
                    c == self@,
                    applied_agree(c),
                    ls == store@,
                    store.wf(),
                    store.map() == c.applied[b as int],
                    k <= ls.len(),
                    by_index.wf(),
                    forall|a: int, i: LogIndex|
                        0 <= a < b && #[trigger] c.applied[a].contains_key(i) ==> by_index.map().contains_key(i)
                            && by_index.map()[i] == c.applied[a][i],
                    forall|j: int| 0 <= j < k ==> by_index.map().contains_key(#[trigger] ls[j].0)
                        && by_index.map()[ls[j].0] == ls[j].1,
                    forall|i: LogIndex|
                        #[trigger] by_index.map().contains_key(i) ==> (exists|a: int|
                            0 <= a < b && #[trigger] c.applied[a].contains_key(i)) || (exists|j: int|
                            0 <= j < k && #[trigger] ls[j].0 == i),
                    forall|b2: int, i2: LogIndex| b2 < b ==> !#[trigger] diverges_at(c, b2, i2),
                    forall|j: int| 0 <= j < k ==> !diverges_at(c, b as int, #[trigger] ls[j].0),
                decreases ls.len() - k,
            {
                proof {
                    crate::assoc::lemma_assoc_map(ls);
                }
                let (index, command) = store.entry(k);
                let ghost cmd = command@;
                assert(c.applied[b as int].contains_key(index) && c.applied[b as int][index] == cmd) by {
                    assert(store.map().contains_key(ls[k as int].0));
                }
                let known = by_index.get(index);
                let conflict = match known {
                    Some(existing) => !crate::applied::same_bytes(existing, command),
                    None => false,
                };
                if conflict {
                    proof {
                        let existing = by_index.map()[index];
                        assert(existing != cmd);
                        // The index came from an earlier node, not from this one.
                        if !(exists|a: int| 0 <= a < b && #[trigger] c.applied[a].contains_key(index)) {
                            let j = choose|j: int| 0 <= j < k && #[trigger] ls[j].0 == index;
                            assert(ls[j].0 < ls[k as int].0);
                        }
                        let a = choose|a: int| 0 <= a < b && #[trigger] c.applied[a].contains_key(index);
                        assert(c.applied[a][index] == existing);
                        assert(diverges_at(c, b as int, index));
                        assert forall|b2: int, i2: LogIndex| #[trigger] diverges_at(c, b2, i2) implies b
                            < b2 || (b == b2 && index <= i2) by {
                            if b2 == b && i2 < index {
                                let j2 = choose|j2: int| 0 <= j2 < ls.len() && ls[j2].0 == i2;
                                if j2 >= k {
                                    assert(ls[k as int].0 <= ls[j2].0);
                                }
                                assert(!diverges_at(c, b as int, ls[j2].0));
                            }
                        }
                        assert(first_divergence(c, b as int, index));
                        lemma_agree_iff_no_divergence(c);
                    }
                    let mut msg = String::from_str("divergent command applied at index ");
                    msg.append(crate::text::decimal_string(index).as_str());
                    return Err(msg);
                }
                let ghost before = by_index.map();
                by_index.insert(index, crate::log::copy_bytes(command));
                proof {
                    assert forall|a: int, i: LogIndex|
                        0 <= a < b && #[trigger] c.applied[a].contains_key(i) implies by_index.map().contains_key(i)
                            && by_index.map()[i] == c.applied[a][i] by {
                        assert(before.contains_key(i));
                    }
                    assert forall|j: int| 0 <= j < k + 1 implies by_index.map().contains_key(#[trigger] ls[j].0)
                        && by_index.map()[ls[j].0] == ls[j].1 by {
                        if j < k {
                            assert(ls[j].0 < ls[k as int].0);
                        }
                    }
                    assert forall|i: LogIndex|
                        #[trigger] by_index.map().contains_key(i) implies (exists|a: int|
                            0 <= a < b && #[trigger] c.applied[a].contains_key(i)) || (exists|j: int|
                            0 <= j < k + 1 && #[trigger] ls[j].0 == i) by {
                        if i == index {
                            assert(ls[k as int].0 == i);
                        } else {
                            assert(before.contains_key(i));
                        }
                    }
                    assert(!diverges_at(c, b as int, index)) by {
                        if diverges_at(c, b as int, index) {
                            let a = choose|a: int|
                                0 <= a < b && #[trigger] c.applied[a].contains_key(index)
                                    && c.applied[a][index] != c.applied[b as int][index];
                            assert(before.contains_key(index));
                        }
                    }
                }
                k = k + 1;
            }
            proof {
                assert forall|i: LogIndex| #[trigger] c.applied[b as int].contains_key(i) implies by_index.map().contains_key(i)
                    && by_index.map()[i] == c.applied[b as int][i] by {
                    let j = choose|j: int| 0 <= j < ls.len() && ls[j].0 == i;
                    assert(by_index.map().contains_key(ls[j].0));
                    assert(store.map().contains_key(ls[j].0));
                }
                assert forall|b2: int, i2: LogIndex| b2 < b + 1 implies !#[trigger] diverges_at(c, b2, i2) by {
                    if b2 == b && c.applied[b as int].contains_key(i2) {
                        let j = choose|j: int| 0 <= j < ls.len() && ls[j].0 == i2;
                        assert(!diverges_at(c, b as int, ls[j].0));
                    }
                }
                assert forall|i: LogIndex|
                    #[trigger] by_index.map().contains_key(i) implies exists|a: int|
                        0 <= a < b + 1 && #[trigger] c.applied[a].contains_key(i) by {
                    if !(exists|a: int| 0 <= a < b && #[trigger] c.applied[a].contains_key(i)) {
                        let j = choose|j: int| 0 <= j < k && #[trigger] ls[j].0 == i;
                        assert(store.map().contains_key(ls[j].0));
                        assert(c.applied[b as int].contains_key(i));
                    }
                }
            }
            b = b + 1;
        }
        Ok(())
    }
}

/// Advances the cluster until a leader exists, up to `max` ticks.
pub fn run_until_leader(cluster: &mut Cluster, max: u64)
    requires
        old(cluster).inv(),
        old(cluster)@.time + max + 1 < u64::MAX,
    ensures
        final(cluster).inv(),
        final(cluster)@ == crate::cluster_model::until_leader_of(old(cluster)@, max as nat),
        final(cluster).proposals_made() == old(cluster).proposals_made(),
{
    let ghost c0 = cluster@;
    let mut left: u64 = max;
    while left > 0 && cluster.leader().is_none()
        invariant
            cluster.inv(),
            left <= max,
            cluster@.time + left + 1 < u64::MAX,
            crate::cluster_model::until_leader_of(cluster@, left as nat)
                == crate::cluster_model::until_leader_of(c0, max as nat),
            cluster.proposals_made() == old(cluster).proposals_made(),
        decreases left,
    {
        let ghost before = cluster@;
        cluster.tick();
        proof {
            crate::cluster_model::lemma_tick_time(before);
        }
        left = left - 1;
    }
    assert(crate::cluster_model::until_leader_of(cluster@, left as nat) == cluster@);
}

/// Election Safety: a cluster never holds two leaders of the same term.
pub proof fn lemma_election_safety(cluster: &Cluster)
    requires
        cluster.inv(),
    ensures
        one_leader_per_term(cluster@),
{
    lemma_one_leader_per_term(cluster@, cluster.record@);
}

/// State Machine Safety: nodes that applied an entry at the same index
/// applied the same command, so an entry committed by any node is never
/// lost or overwritten.
pub proof fn lemma_state_machine_safety(cluster: &Cluster)
    requires
        cluster.inv(),
    ensures
        applied_agree(cluster@),
{
    crate::history::lemma_safety_applied_agree(cluster@, cluster.record@, cluster.history@);
}

/// Log Matching: if two nodes' logs hold entries of the same term at the
/// same index, the logs are identical up to that index.
pub proof fn lemma_log_matching(cluster: &Cluster, i: int, j: int)
    requires
        cluster.inv(),
        0 <= i < cluster@.nodes.len(),
        0 <= j < cluster@.nodes.len(),
    ensures
        crate::history::term_matching(cluster@.nodes[i].log, cluster@.nodes[j].log),
{
    assert(crate::history::node_safe(cluster@, cluster.history@, i));
    assert(crate::history::node_safe(cluster@, cluster.history@, j));
    crate::history::lemma_term_matching(cluster.history@, cluster@.nodes[i].log, cluster@.nodes[j].log);
}

/// Leader Completeness: a leader's log holds every entry that a node of no
/// later term has committed.
pub proof fn lemma_leader_completeness(cluster: &Cluster, l: int, j: int)
    requires
        cluster.inv(),
        0 <= l < cluster@.nodes.len(),
        0 <= j < cluster@.nodes.len(),
        cluster@.nodes[l].role == Role::Leader,
        cluster@.nodes[j].current_term <= cluster@.nodes[l].current_term,
    ensures
        cluster@.nodes[j].commit_index <= cluster@.nodes[l].log.len(),
        cluster@.nodes[l].log.subrange(0, cluster@.nodes[j].commit_index as int)
            == cluster@.nodes[j].log.subrange(0, cluster@.nodes[j].commit_index as int),
{
    let c = cluster@;
    let h = cluster.history@;
    let g = cluster.record@;
    let n = c.nodes.len();
    let sl = c.nodes[l];
    let sj = c.nodes[j];
    let cm = sj.commit_index as int;
    assert(crate::history::node_safe(c, h, l));
    assert(crate::history::node_safe(c, h, j));
    if cm == 0 {
        assert(sl.log.subrange(0, 0) =~= sj.log.subrange(0, 0));
    } else {
        let (t0, n0) = choose|t0: Term, n0: int|
            t0 <= sj.current_term && crate::history::committed(h, n, t0, n0) && cm <= n0
                && crate::history::has_prefix(sj.log, h.lt[t0], cm);
        let tl = sl.current_term;
        assert(h.lt[tl] == sl.log);
        if t0 < tl {
            crate::history::lemma_committed_held(c, g, h, t0, n0, tl);
            assert(sl.log.subrange(0, cm) =~= sl.log.subrange(0, n0).subrange(0, cm));
            assert(h.lt[t0].subrange(0, cm) =~= h.lt[t0].subrange(0, n0).subrange(0, cm));
        }
    }
}

} // verus!
