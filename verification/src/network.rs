//! A virtual, in-memory network with a logical clock, fixed delivery delay, and
//! clean two-way partitions. Fully deterministic.
use std::collections::BTreeSet;
use vstd::prelude::*;

use crate::message::{Message, MessageView};
use crate::types::NodeId;

verus! {

broadcast use vstd::std_specs::btree::group_btree_axioms, vstd::laws_cmp::group_laws_cmp;

struct InFlight {
    from: NodeId,
    to: NodeId,
    message: Message,
    deliver_at: u64,
}

/// A message on its way, as plain values.
pub struct InFlightView {
    pub from: NodeId,
    pub to: NodeId,
    pub message: MessageView,
    pub deliver_at: u64,
}

impl View for InFlight {
    type V = InFlightView;

    closed spec fn view(&self) -> InFlightView {
        InFlightView {
            from: self.from,
            to: self.to,
            message: self.message@,
            deliver_at: self.deliver_at,
        }
    }
}

/// The network as plain values: the queue in send order, the isolated side
/// of the partition, and the delivery delay.
pub struct NetworkView {
    pub queue: Seq<InFlightView>,
    pub isolated: Set<NodeId>,
    pub delay: u64,
}

/// A delivered message: sender, receiver, payload.
pub struct Delivery {
    pub from: NodeId,
    pub to: NodeId,
    pub message: MessageView,
}

/// Two nodes are connected iff they are on the same side of the partition.
pub open spec fn linked(isolated: Set<NodeId>, a: NodeId, b: NodeId) -> bool {
    isolated.contains(a) == isolated.contains(b)
}

/// The messages of `q` due at `now` whose link is up, in send order.
pub open spec fn delivered_of(q: Seq<InFlightView>, isolated: Set<NodeId>, now: u64) -> Seq<Delivery>
    decreases q.len(),
{
    if q.len() == 0 {
        Seq::empty()
    } else {
        let m = q.last();
        delivered_of(q.drop_last(), isolated, now) + if m.deliver_at <= now && linked(
            isolated,
            m.from,
            m.to,
        ) {
            seq![Delivery { from: m.from, to: m.to, message: m.message }]
        } else {
            Seq::empty()
        }
    }
}

/// The messages of `q` not yet due at `now`, in send order.
pub open spec fn pending_of(q: Seq<InFlightView>, now: u64) -> Seq<InFlightView>
    decreases q.len(),
{
    if q.len() == 0 {
        Seq::empty()
    } else {
        pending_of(q.drop_last(), now) + if q.last().deliver_at > now {
            seq![q.last()]
        } else {
            Seq::empty()
        }
    }
}

/// The view of a list of delivered messages.
pub open spec fn deliveries_view(d: Seq<(NodeId, NodeId, Message)>) -> Seq<Delivery> {
    d.map_values(|t: (NodeId, NodeId, Message)| Delivery { from: t.0, to: t.1, message: t.2@ })
}

/// Routes messages between nodes with a fixed delay, dropping any message that
/// crosses a partition boundary.
pub struct VirtualNetwork {
    queue: Vec<InFlight>,
    isolated: BTreeSet<NodeId>,
    delay: u64,
}

impl View for VirtualNetwork {
    type V = NetworkView;

    closed spec fn view(&self) -> NetworkView {
        NetworkView {
            queue: self.queue@.map_values(|m: InFlight| m@),
            isolated: self.isolated@,
            delay: self.delay,
        }
    }
}

impl VirtualNetwork {
    pub fn new(delay: u64) -> (net: Self)
        ensures
            net@.queue == Seq::<InFlightView>::empty(),
            net@.isolated == Set::<NodeId>::empty(),
            net@.delay == delay,
    {
        let net = VirtualNetwork { queue: Vec::new(), isolated: BTreeSet::new(), delay };
        assert(net@.queue =~= Seq::<InFlightView>::empty());
        net
    }

    /// Two nodes are connected iff they are on the same side of the partition
    /// (both isolated, or both not).
    fn connected(&self, a: NodeId, b: NodeId) -> (r: bool)
        ensures
            r == linked(self@.isolated, a, b),
    {
        self.isolated.contains(&a) == self.isolated.contains(&b)
    }

    /// Enqueues a message for delivery at `now + delay`.
    pub fn send(&mut self, from: NodeId, to: NodeId, message: Message, now: u64)
        requires
            now + old(self)@.delay <= u64::MAX,
        ensures
            final(self)@ == (NetworkView {
                queue: old(self)@.queue.push(
                    InFlightView {
                        from,
                        to,
                        message: message@,
                        deliver_at: (now + old(self)@.delay) as u64,
                    },
                ),
                ..old(self)@
            }),
    {
        let item = InFlight { from, to, message, deliver_at: now + self.delay };
        let ghost v = item@;
        self.queue.push(item);
        assert(self@.queue =~= old(self)@.queue.push(v));
    }

    /// Removes and returns every message due at or before `now` whose link is
    /// currently connected; due-but-partitioned messages are dropped.
    pub fn deliver_due(&mut self, now: u64) -> (due: Vec<(NodeId, NodeId, Message)>)
        ensures
            deliveries_view(due@) == delivered_of(old(self)@.queue, old(self)@.isolated, now),
            final(self)@ == (NetworkView { queue: pending_of(old(self)@.queue, now), ..old(self)@ }),
    {
        let mut due: Vec<(NodeId, NodeId, Message)> = Vec::new();
        let mut remaining: Vec<InFlight> = Vec::new();
        let mut queue: Vec<InFlight> = Vec::new();
        std::mem::swap(&mut queue, &mut self.queue);
        let ghost q = queue@.map_values(|m: InFlight| m@);
        let ghost iso = self@.isolated;
        assert(q =~= old(self)@.queue);
        for item in it: queue
            invariant
                iso == self.isolated@,
                q == it.seq().map_values(|m: InFlight| m@),
                deliveries_view(due@) == delivered_of(q.subrange(0, it.index() as int), iso, now),
                remaining@.map_values(|m: InFlight| m@) == pending_of(
                    q.subrange(0, it.index() as int),
                    now,
                ),
        {
            let ghost k = it.index();
            let ghost before = q.subrange(0, k as int);
            let ghost v = item@;
            assert(q.subrange(0, k + 1).drop_last() =~= before);
            assert(q.subrange(0, k + 1).last() == v);
            let ghost due0 = due@;
            let ghost rem0 = remaining@;
            if item.deliver_at > now {
                remaining.push(item);
                assert(remaining@.map_values(|m: InFlight| m@) =~= rem0.map_values(
                    |m: InFlight| m@,
                ).push(v));
            } else if self.connected(item.from, item.to) {
                due.push((item.from, item.to, item.message));
                assert(deliveries_view(due@) =~= deliveries_view(due0).push(
                    Delivery { from: v.from, to: v.to, message: v.message },
                ));
            }
            // else: due but partitioned -> dropped
        }
        assert(q.subrange(0, q.len() as int) =~= q);
        self.queue = remaining;
        due
    }

    /// Isolates `nodes` from the rest of the cluster.
    pub fn partition(&mut self, nodes: &[NodeId])
        ensures
            final(self)@ == (NetworkView { isolated: nodes@.to_set(), ..old(self)@ }),
    {
        let mut isolated: BTreeSet<NodeId> = BTreeSet::new();
        let mut i: usize = 0;
        while i < nodes.len()
            invariant
                i <= nodes@.len(),
                isolated@ == nodes@.subrange(0, i as int).to_set(),
            decreases nodes@.len() - i,
        {
            isolated.insert(nodes[i]);
            proof {
                let before = nodes@.subrange(0, i as int);
                assert(nodes@.subrange(0, i + 1) =~= before.push(nodes@[i as int]));
                before.lemma_push_to_set_commute(nodes@[i as int]);
            }
            i = i + 1;
        }
        assert(nodes@.subrange(0, i as int) =~= nodes@);
        self.isolated = isolated;
    }

    /// Removes all partitions.
    pub fn heal(&mut self)
        ensures
            final(self)@ == (NetworkView { isolated: Set::empty(), ..old(self)@ }),
    {
        self.isolated.clear();
    }
}

/// A delivery of message `m`.
pub open spec fn delivery_of(m: InFlightView) -> Delivery {
    Delivery { from: m.from, to: m.to, message: m.message }
}

/// Every queued message is handled by its due time: a due message is
/// delivered if its link is up and dropped otherwise, never kept; a message
/// not yet due is kept, never delivered.
pub proof fn lemma_delivery_outcomes(q: Seq<InFlightView>, isolated: Set<NodeId>, now: u64)
    ensures
        forall|k: int|
            0 <= k < q.len() && q[k].deliver_at <= now && linked(isolated, q[k].from, q[k].to)
                ==> delivered_of(q, isolated, now).contains(#[trigger] delivery_of(q[k])),
        forall|k: int|
            0 <= k < q.len() && q[k].deliver_at > now ==> pending_of(q, now).contains(#[trigger] q[k]),
        forall|m: InFlightView| #[trigger] pending_of(q, now).contains(m) ==> m.deliver_at > now && q.contains(m),
        forall|d: Delivery| #[trigger] delivered_of(q, isolated, now).contains(d) ==> exists|k: int|
            0 <= k < q.len() && q[k].deliver_at <= now && linked(isolated, q[k].from, q[k].to)
                && d == #[trigger] delivery_of(q[k]),
    decreases q.len(),
{
    if q.len() > 0 {
        let init = q.drop_last();
        lemma_delivery_outcomes(init, isolated, now);
        let d0 = delivered_of(init, isolated, now);
        let p0 = pending_of(init, now);
        let d = delivered_of(q, isolated, now);
        let p = pending_of(q, now);
        let m = q.last();
        assert forall|k: int|
            0 <= k < q.len() && q[k].deliver_at <= now && linked(isolated, q[k].from, q[k].to)
                implies d.contains(#[trigger] delivery_of(q[k])) by {
            if k < q.len() - 1 {
                assert(init[k] == q[k]);
                let j = choose|j: int| 0 <= j < d0.len() && d0[j] == delivery_of(init[k]);
                assert(d[j] == d0[j]);
            } else {
                assert(d[d.len() - 1] == delivery_of(m));
            }
        }
        assert forall|k: int| 0 <= k < q.len() && q[k].deliver_at > now implies p.contains(#[trigger] q[k]) by {
            if k < q.len() - 1 {
                assert(init[k] == q[k]);
                let j = choose|j: int| 0 <= j < p0.len() && p0[j] == init[k];
                assert(p[j] == p0[j]);
            } else {
                assert(p[p.len() - 1] == m);
            }
        }
        assert forall|x: InFlightView| #[trigger] p.contains(x) implies x.deliver_at > now && q.contains(x) by {
            let j = choose|j: int| 0 <= j < p.len() && p[j] == x;
            if j < p0.len() {
                assert(p0[j] == x);
                assert(p0.contains(x));
                let i = choose|i: int| 0 <= i < init.len() && init[i] == x;
                assert(q[i] == x);
            } else {
                assert(x == m);
                assert(q[q.len() - 1] == x);
            }
        }
        assert forall|x: Delivery| #[trigger] d.contains(x) implies exists|k: int|
            0 <= k < q.len() && q[k].deliver_at <= now && linked(isolated, q[k].from, q[k].to)
                && x == #[trigger] delivery_of(q[k]) by {
            let j = choose|j: int| 0 <= j < d.len() && d[j] == x;
            if j < d0.len() {
                assert(d0[j] == x);
                assert(d0.contains(x));
                let i = choose|i: int|
                    0 <= i < init.len() && init[i].deliver_at <= now && linked(
                        isolated,
                        init[i].from,
                        init[i].to,
                    ) && x == #[trigger] delivery_of(init[i]);
                assert(q[i] == init[i]);
            } else {
                assert(x == delivery_of(m));
                assert(q[q.len() - 1] == m);
            }
        }
    }
}

} // verus!
