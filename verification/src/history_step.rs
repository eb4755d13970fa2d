//! What routing one node's actions does to the cluster, in the terms the
//! safety proof uses: the queue grows by the node's sends and its applied
//! record by its applies.
use vstd::prelude::*;

use crate::cluster_model::{dispatch_of, dispatch_one, ClusterView};
use crate::event::ActionView;
use crate::log::LogEntryView;
use crate::node_laws::contiguous;
use crate::node_model::apply_range;
use crate::types::{LogIndex, NodeId};

verus! {

/// The applied record `a` after the Apply actions of `acts`, in order.
pub open spec fn record_applies(a: Map<LogIndex, Seq<u8>>, acts: Seq<ActionView>) -> Map<LogIndex, Seq<u8>>
    decreases acts.len(),
{
    if acts.len() == 0 {
        a
    } else {
        let a1 = record_applies(a, acts.drop_last());
        match acts.last() {
            ActionView::Apply { index, command } => a1.insert(index, command),
            ActionView::Send { .. } => a1,
        }
    }
}

/// Every message that routing `acts` from `src` adds to the queue is one of
/// the sends of `acts`, from `src`.
pub open spec fn queue_grows_by(c: ClusterView, c2: ClusterView, src: NodeId, acts: Seq<ActionView>) -> bool {
    &&& c.net.queue.len() <= c2.net.queue.len()
    &&& forall|k: int| 0 <= k < c.net.queue.len() ==> c2.net.queue[k] == #[trigger] c.net.queue[k]
    &&& forall|k: int|
        c.net.queue.len() <= k < c2.net.queue.len() ==> {
            &&& (#[trigger] c2.net.queue[k]).from == src
            &&& exists|j: int|
                0 <= j < acts.len() && acts[j] == (ActionView::Send {
                    to: c2.net.queue[k].to,
                    message: c2.net.queue[k].message,
                })
        }
}

/// Routing the actions of `src` appends its sends to the queue and records
/// its applies, and touches nothing else.
pub proof fn lemma_dispatch_parts(c: ClusterView, src: NodeId, acts: Seq<ActionView>)
    requires
        src < c.applied.len(),
    ensures
        ({
            let c2 = dispatch_of(c, src, acts);
            &&& queue_grows_by(c, c2, src, acts)
            &&& c2.applied == c.applied.update(src as int, record_applies(c.applied[src as int], acts))
            &&& c2.nodes == c.nodes
        }),
    decreases acts.len(),
{
    if acts.len() > 0 {
        let init = acts.drop_last();
        lemma_dispatch_parts(c, src, init);
        let c1 = dispatch_of(c, src, init);
        let c2 = dispatch_of(c, src, acts);
        assert(c2 == dispatch_one(c1, src, acts.last()));
        assert forall|k: int| c.net.queue.len() <= k < c2.net.queue.len() implies {
            &&& (#[trigger] c2.net.queue[k]).from == src
            &&& exists|j: int|
                0 <= j < acts.len() && acts[j] == (ActionView::Send {
                    to: c2.net.queue[k].to,
                    message: c2.net.queue[k].message,
                })
        } by {
            if k < c1.net.queue.len() {
                let j = choose|j: int|
                    0 <= j < init.len() && init[j] == (ActionView::Send {
                        to: c1.net.queue[k].to,
                        message: c1.net.queue[k].message,
                    });
                assert(acts[j] == init[j]);
            } else {
                assert(acts[acts.len() - 1] == acts.last());
            }
        }
        assert(c2.applied =~= c.applied.update(src as int, record_applies(c.applied[src as int], acts)));
    }
}

/// Sends leave the applied record alone.
pub proof fn lemma_record_applies_of(a: Map<LogIndex, Seq<u8>>, acts: Seq<ActionView>)
    ensures
        record_applies(a, acts) == record_applies(a, crate::node_laws::applies_of(acts)),
    decreases acts.len(),
{
    if acts.len() > 0 {
        let init = acts.drop_last();
        lemma_record_applies_of(a, init);
        let ap = crate::node_laws::applies_of(init);
        if acts.last() is Apply {
            let ap2 = ap + seq![acts.last()];
            assert(ap2.drop_last() =~= ap);
            assert(crate::node_laws::applies_of(acts) == ap2);
        } else {
            assert(crate::node_laws::applies_of(acts) =~= ap);
        }
    }
}

/// Applying positions `lo + 1 ..= hi` of a contiguous log records each
/// position's command under its index.
pub proof fn lemma_record_apply_range(a: Map<LogIndex, Seq<u8>>, log: Seq<LogEntryView>, lo: int, hi: int)
    requires
        contiguous(log),
        0 <= lo,
        hi <= log.len(),
    ensures
        forall|i: LogIndex| #[trigger]
            record_applies(a, apply_range(log, lo, hi)).contains_key(i) <==> a.contains_key(i) || (
            lo < i <= hi),
        forall|i: LogIndex| #[trigger]
            record_applies(a, apply_range(log, lo, hi)).contains_key(i) ==> record_applies(
                a,
                apply_range(log, lo, hi),
            )[i] == if lo < i <= hi {
                log[i - 1].command
            } else {
                a[i]
            },
    decreases hi - lo,
{
    if hi > lo {
        lemma_record_apply_range(a, log, lo, hi - 1);
        let r = apply_range(log, lo, hi);
        let r0 = apply_range(log, lo, hi - 1);
        assert(log[hi - 1].index == hi);
        let act = ActionView::Apply { index: log[hi - 1].index, command: log[hi - 1].command };
        assert(r == r0 + seq![act]);
        assert(r.drop_last() =~= r0);
        assert(r.last() == act);
        let m0 = record_applies(a, r0);
        assert(record_applies(a, r) == m0.insert(log[hi - 1].index, log[hi - 1].command));
        assert forall|i: LogIndex| #[trigger] record_applies(a, r).contains_key(i) implies record_applies(
            a,
            r,
        )[i] == if lo < i <= hi {
            log[i - 1].command
        } else {
            a[i]
        } by {
            if i != hi {
                assert(m0.contains_key(i));
            }
        }
    } else {
        assert(apply_range(log, lo, hi) == Seq::<ActionView>::empty());
        assert(record_applies(a, apply_range(log, lo, hi)) == a);
    }
}

} // verus!
