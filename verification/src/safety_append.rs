//! The safety invariant across an AppendEntries request: merging a slice of
//! the leader's log leaves the follower with either its own log or the
//! leader's log up to the slice's end, and keeps every prefix the two logs
//! already shared.
use vstd::prelude::*;

use crate::cluster_model::{ghost_after, node_ok, step_node, ClusterGhost, ClusterView};
use crate::event::{ActionView, EventView};
use crate::history::{
    term_matching, lemma_term_matching,
    ack_kept, ack_of, backed, certified, committed, has_prefix, holds, later_hold, leader_ok,
    matches_leaders, msg_safe, node_safe, terms_at_most, valid_pair, History,
};
use crate::history_frame::{history_after, lemma_grows_certified, lemma_grows_matches};
use crate::log::{entry_at_of, truncated_from, LogEntryView};
use crate::message::{AppendEntriesView, MessageView};
use crate::node_laws::contiguous;
use crate::node_model::{merge_entries, merge_entry, observe_term_of, prev_matches, step_of};
use crate::safety_frame::{
    lemma_later_hold_shrinks, lemma_step_cluster, lemma_step_grows, own_ok, step_ctx,
};
use crate::safety_own::{lemma_own_acks_same, lemma_own_applied, lemma_own_same_log};
use crate::safety_tick::{lemma_extends_self, step_base};
use crate::types::{NodeId, Role, Term};

verus! {

/// Merging positions `p .. hi` of `ll` into a log that agrees with it before
/// `p` gives the log itself when it already agrees up to `hi`, and `ll` up
/// to `hi` otherwise.
pub proof fn lemma_merge_result(log: Seq<LogEntryView>, ll: Seq<LogEntryView>, p: int, hi: int)
    requires
        contiguous(log),
        contiguous(ll),
        0 <= p <= log.len(),
        p <= hi <= ll.len(),
        log.subrange(0, p) == ll.subrange(0, p),
        term_matching(log, ll),
    ensures
        merge_entries(log, ll.subrange(p, hi)) == if hi <= log.len() && log.subrange(0, hi) == ll.subrange(0, hi) {
            log
        } else {
            ll.subrange(0, hi)
        },
    decreases hi - p,
{
    let entries = ll.subrange(p, hi);
    if p == hi {
        assert(entries.len() == 0);
    } else {
        let e = ll[p];
        assert(entries[0] == e);
        assert(e.index == p + 1);
        assert(entries.drop_first() =~= ll.subrange(p + 1, hi));
        let log1 = merge_entry(log, e);
        if p + 1 <= log.len() && log[p].term == e.term {
            assert(entry_at_of(log, e.index) == Some(log[p]));
            assert(log1 == log);
            assert(log.subrange(0, p + 1) == ll.subrange(0, p + 1));
            lemma_merge_result(log, ll, p + 1, hi);
        } else {
            if p + 1 <= log.len() {
                assert(entry_at_of(log, e.index) == Some(log[p]));
                assert(truncated_from(log, e.index) =~= log.subrange(0, p));
            }
            assert(log1 =~= ll.subrange(0, p + 1)) by {
                assert(log.subrange(0, p).push(e) =~= ll.subrange(0, p + 1));
                if p + 1 > log.len() {
                    assert(log =~= log.subrange(0, p));
                }
            }
            assert(contiguous(log1));
            assert(term_matching(log1, ll)) by {
                assert forall|j: int|
                    0 <= j < log1.len() && j < ll.len() && #[trigger] log1[j].term == #[trigger] ll[j].term
                        implies log1.subrange(0, j + 1) == ll.subrange(0, j + 1) by {
                    assert(log1.subrange(0, j + 1) =~= ll.subrange(0, j + 1));
                }
            }
            assert(log1.subrange(0, p + 1) =~= ll.subrange(0, p + 1));
            lemma_merge_result(log1, ll, p + 1, hi);
            if hi <= log.len() && log.subrange(0, hi) == ll.subrange(0, hi) {
                assert(log[p] == log.subrange(0, hi)[p]);
                assert(ll[p] == ll.subrange(0, hi)[p]);
                assert(false);
            }
            if hi <= log1.len() && log1.subrange(0, hi) == ll.subrange(0, hi) {
                assert(hi == p + 1);
                assert(log1 =~= ll.subrange(0, hi));
            }
        }
    }
}

/// The merge keeps every prefix the log already shared with `ll`.
pub proof fn lemma_merge_keeps(log: Seq<LogEntryView>, ll: Seq<LogEntryView>, p: int, hi: int, x: int)
    requires
        contiguous(log),
        contiguous(ll),
        0 <= p <= log.len(),
        p <= hi <= ll.len(),
        log.subrange(0, p) == ll.subrange(0, p),
        term_matching(log, ll),
        0 <= x <= log.len(),
        x <= ll.len(),
        log.subrange(0, x) == ll.subrange(0, x),
    ensures
        x <= merge_entries(log, ll.subrange(p, hi)).len(),
        merge_entries(log, ll.subrange(p, hi)).subrange(0, x) == log.subrange(0, x),
        merge_entries(log, ll.subrange(p, hi)).subrange(0, hi) == ll.subrange(0, hi),
{
    lemma_merge_result(log, ll, p, hi);
    let m = merge_entries(log, ll.subrange(p, hi));
    if !(hi <= log.len() && log.subrange(0, hi) == ll.subrange(0, hi)) {
        if x > hi {
            assert(log.subrange(0, hi) =~= log.subrange(0, x).subrange(0, hi));
            assert(ll.subrange(0, hi) =~= ll.subrange(0, x).subrange(0, hi));
            assert(false);
        }
        assert(m.subrange(0, x) =~= ll.subrange(0, x));
        assert(m.subrange(0, hi) =~= ll.subrange(0, hi));
    }
}

/// A prefix of a certified prefix is certified, in any log that holds it.
pub proof fn lemma_certified_shrink(
    h: History,
    count: nat,
    t: Term,
    c: int,
    log: Seq<LogEntryView>,
    c2: int,
    log2: Seq<LogEntryView>,
)
    requires
        certified(h, count, t, c, log),
        0 <= c2 <= c,
        has_prefix(log2, log, c2),
    ensures
        certified(h, count, t, c2, log2),
{
    if c2 != 0 {
        let (t0, n0) = choose|t0: Term, n0: int|
            t0 <= t && committed(h, count, t0, n0) && c <= n0 && has_prefix(log, h.lt[t0], c);
        assert(log.subrange(0, c2) =~= log.subrange(0, c).subrange(0, c2));
        assert(h.lt[t0].subrange(0, c2) =~= h.lt[t0].subrange(0, c).subrange(0, c2));
        assert(committed(h, count, t0, n0));
    }
}

/// A refused AppendEntries request keeps the safety invariant: the node's
/// log and commit index stay, and it answers with a failure.
pub proof fn lemma_append_refused(c: ClusterView, g: ClusterGhost, h: History, id: NodeId, from: NodeId, ae: AppendEntriesView)
    requires
        step_base(c, g, h, id, EventView::Message { from, message: MessageView::AppendEntries(ae) }),
        ({
            let s1 = observe_term_of(c.nodes[id as int], ae.term);
            ae.term < s1.current_term || !prev_matches(s1, ae)
        }),
    ensures
        step_ctx(c, g, h, id, EventView::Message { from, message: MessageView::AppendEntries(ae) }),
        own_ok(c, g, h, id, EventView::Message { from, message: MessageView::AppendEntries(ae) }),
{
    let e = EventView::Message { from, message: MessageView::AppendEntries(ae) };
    let s = c.nodes[id as int];
    let (s2, acts) = step_of(s, e);
    let t2 = s2.current_term;
    let g2 = ghost_after(g, id, s2);
    let h2 = history_after(h, id, s, e);
    let c2 = step_node(c, id, e);
    let n = c.nodes.len();
    let s1 = observe_term_of(s, ae.term);
    assert(node_ok(c, g, id as int));
    assert(node_safe(c, h, id as int));
    lemma_extends_self(s.log);
    if s1.voted_for is Some {
        assert(s1 == s);
        assert(h.vlog.contains_key((id, t2)));
    }
    assert(s2.log == s.log);
    assert(s2.role != Role::Leader || s1 == s);
    assert(step_ctx(c, g, h, id, e));
    lemma_step_cluster(c, g, id, e);
    lemma_step_grows(c, g, h, id, e);
    lemma_own_same_log(c, g, h, id, e);
    assert(c2.nodes[id as int] == s2);
    if s2.role == Role::Leader {
        assert(crate::history::progress_ok(h2, s2)) by {
            assert forall|p: NodeId| #[trigger] crate::node_model::match_of(s2, p) <= ack_of(h2, p, t2) by {
                assert(crate::node_model::match_of(s, p) <= ack_of(h, p, t2));
            }
        }
    }
    if s2.role == Role::Candidate {
        assert(s1 == s);
    }
    assert(node_safe(c2, h2, id as int));
    if s2.role == Role::Leader {
        crate::safety_elect::lemma_leader_ok_continuing(c, g, h, id, e);
    }
    lemma_own_acks_same(c, g, h, id, e);
    assert forall|k: int| 0 <= k < acts.len() implies match #[trigger] acts[k] {
        ActionView::Send { to, message } => msg_safe(g2, h2, n, id, to, message),
        ActionView::Apply { .. } => true,
    } by {
        assert(acts.len() == 1);
    }
}

/// Both invariants of a cluster: the one on votes and the safety one.
pub open spec fn cluster_inv_and_safety(c: ClusterView, g: ClusterGhost, h: History) -> bool {
    crate::cluster_model::cluster_inv(c, g) && crate::history::safety_inv(c, g, h)
}

/// What merging an accepted request gives: a contiguous log matching the
/// leader logs, agreeing with the leader's log up to the slice's end, and
/// keeping the node's committed prefix.
pub proof fn lemma_append_merge(c: ClusterView, g: ClusterGhost, h: History, id: NodeId, ae: AppendEntriesView)
    requires
        cluster_inv_and_safety(c, g, h),
        id < c.nodes.len(),
        msg_safe(g, h, c.nodes.len(), ae.leader_id, id, MessageView::AppendEntries(ae)),
        ae.term >= c.nodes[id as int].current_term,
        prev_matches(c.nodes[id as int], ae),
    ensures
        ({
            let s = c.nodes[id as int];
            let ll = h.lt[ae.term];
            let hi = ae.prev_log_index + ae.entries.len();
            let mlog = merge_entries(s.log, ae.entries);
            &&& contiguous(mlog)
            &&& matches_leaders(h, mlog)
            &&& terms_at_most(mlog, ae.term)
            &&& hi <= mlog.len()
            &&& mlog.subrange(0, hi) == ll.subrange(0, hi)
            &&& has_prefix(mlog, s.log, s.commit_index as int)
            &&& forall|tt: Term, m: int|
                valid_pair(h, tt, m) && holds(h, tt, m, s.log) && holds(h, tt, m, ll) ==> #[trigger] holds(
                    h,
                    tt,
                    m,
                    mlog,
                )
        }),
{
    let s = c.nodes[id as int];
    let n = c.nodes.len();
    let t = ae.term;
    let ll = h.lt[t];
    let p = ae.prev_log_index as int;
    let hi = p + ae.entries.len();
    let log = s.log;
    assert(node_safe(c, h, id as int));
    assert(leader_ok(c, g, h, t));
    lemma_term_matching(h, log, ll);
    assert(p <= log.len());
    assert(log.subrange(0, p) == ll.subrange(0, p)) by {
        if p > 0 {
            assert(log[p - 1].term == ll[p - 1].term);
        } else {
            assert(log.subrange(0, p) =~= ll.subrange(0, p));
        }
    }
    lemma_merge_result(log, ll, p, hi);
    let mlog = merge_entries(log, ae.entries);
    assert(log.subrange(0, 0) =~= ll.subrange(0, 0));
    lemma_merge_keeps(log, ll, p, hi, 0);
    let cm = s.commit_index as int;
    assert(log.subrange(0, cm) == ll.subrange(0, cm) && cm <= ll.len()) by {
        if cm > 0 {
            let (t0, n0) = choose|t0: Term, n0: int|
                t0 <= s.current_term && committed(h, n, t0, n0) && cm <= n0 && has_prefix(
                    log,
                    h.lt[t0],
                    cm,
                );
            if t0 < t {
                crate::history::lemma_committed_held(c, g, h, t0, n0, t);
                assert(ll.subrange(0, cm) =~= ll.subrange(0, n0).subrange(0, cm));
                assert(h.lt[t0].subrange(0, cm) =~= h.lt[t0].subrange(0, n0).subrange(0, cm));
            }
        } else {
            assert(log.subrange(0, cm) =~= ll.subrange(0, cm));
        }
    }
    lemma_merge_keeps(log, ll, p, hi, cm);
    assert(contiguous(mlog)) by {
        if mlog != log {
            assert forall|k: int| 0 <= k < mlog.len() implies #[trigger] mlog[k].index == k + 1 by {
                assert(mlog[k] == ll[k]);
            }
        }
    }
    assert(matches_leaders(h, mlog)) by {
        if mlog != log {
            assert forall|k: int| 0 <= k < mlog.len() implies #[trigger] backed(h, mlog, k) by {
                assert(backed(h, ll, k));
                assert(mlog.subrange(0, k + 1) =~= ll.subrange(0, k + 1));
            }
        }
    }
    assert(terms_at_most(mlog, t)) by {
        assert forall|k: int| 0 <= k < mlog.len() implies #[trigger] mlog[k].term <= t by {
            if mlog != log {
                assert(mlog[k] == ll[k]);
            }
        }
    }
    assert forall|tt: Term, m: int|
        valid_pair(h, tt, m) && holds(h, tt, m, s.log) && holds(h, tt, m, ll) implies #[trigger] holds(
            h,
            tt,
            m,
            mlog,
        ) by {
        lemma_merge_keeps(log, ll, p, hi, m);
    }
}

/// An accepted AppendEntries request keeps the safety invariant: the node's
/// log agrees with its leader's up to the slice's end and keeps its committed
/// prefix, it commits only what the leader had committed, and it
/// acknowledges what it now holds.
#[verifier::rlimit(40)]
pub proof fn lemma_append_accepted(c: ClusterView, g: ClusterGhost, h: History, id: NodeId, from: NodeId, ae: AppendEntriesView)
    requires
        step_base(c, g, h, id, EventView::Message { from, message: MessageView::AppendEntries(ae) }),
        ({
            let s1 = observe_term_of(c.nodes[id as int], ae.term);
            ae.term >= s1.current_term && prev_matches(s1, ae)
        }),
    ensures
        step_ctx(c, g, h, id, EventView::Message { from, message: MessageView::AppendEntries(ae) }),
        own_ok(c, g, h, id, EventView::Message { from, message: MessageView::AppendEntries(ae) }),
{
    let e = EventView::Message { from, message: MessageView::AppendEntries(ae) };
    let s = c.nodes[id as int];
    let (s2, acts) = step_of(s, e);
    let t2 = s2.current_term;
    let g2 = ghost_after(g, id, s2);
    let h2 = history_after(h, id, s, e);
    let c2 = step_node(c, id, e);
    let n = c.nodes.len();
    let s1 = observe_term_of(s, ae.term);
    let t = ae.term;
    let ll = h.lt[t];
    let hi = ae.prev_log_index + ae.entries.len();
    let log = s.log;
    assert(node_ok(c, g, id as int));
    assert(node_safe(c, h, id as int));
    if s1.voted_for is Some {
        assert(s1 == s);
        assert(h.vlog.contains_key((id, t2)));
    }
    assert(ae.leader_id == from);
    lemma_append_merge(c, g, h, id, ae);
    let mlog = merge_entries(log, ae.entries);
    assert(t2 == t);
    assert(s2.log == mlog);
    assert(s2.role == Role::Follower);
    assert(step_ctx(c, g, h, id, e));
    lemma_step_cluster(c, g, id, e);
    lemma_step_grows(c, g, h, id, e);
    assert(c2.nodes[id as int] == s2);
    crate::node_laws::lemma_step_commit(s, e);
    lemma_own_applied(c, g, h, id, e);
    lemma_grows_matches(h, h2, mlog);
    if s2.commit_index > s.commit_index {
        let nc = s2.commit_index as int;
        assert(nc <= ae.leader_commit && nc <= hi);
        assert(has_prefix(mlog, ll, nc)) by {
            assert(mlog.subrange(0, nc) =~= mlog.subrange(0, hi as int).subrange(0, nc));
            assert(ll.subrange(0, nc) =~= ll.subrange(0, hi as int).subrange(0, nc));
        }
        lemma_certified_shrink(h, n, t, ae.leader_commit as int, ll, nc, mlog);
        lemma_grows_certified(h, h2, n, t, t2, nc, mlog, mlog);
    } else {
        lemma_grows_certified(h, h2, n, s.current_term, t2, s.commit_index as int, log, mlog);
    }
    assert(node_safe(c2, h2, id as int));
    assert forall|tt: Term, m: int| #[trigger] ack_kept(c2, h2, tt, m, id) by {
        if valid_pair(h2, tt, m) && ack_of(h2, id, tt) >= m && later_hold(h2, tt, m, t2 as int) {
            assert(h2.lt == h.lt);
            if tt == t && m <= hi {
                assert(mlog.subrange(0, m) =~= mlog.subrange(0, hi as int).subrange(0, m));
                assert(ll.subrange(0, m) =~= ll.subrange(0, hi as int).subrange(0, m));
            } else {
                assert(ack_of(h, id, tt) >= m);
                assert(h.acks.contains_key((id, tt)));
                assert(crate::history::acked_ok(c, h, (id, tt)));
                lemma_later_hold_shrinks(c, g, h, id, e, tt, m, s.current_term as int);
                assert(ack_kept(c, h, tt, m, id));
                assert(holds(h, tt, m, ll)) by {
                    if tt < t {
                        assert(h.lt.contains_key(t));
                    }
                }
                assert(holds(h, tt, m, mlog));
            }
        }
    }
    assert forall|k: int| 0 <= k < acts.len() implies match #[trigger] acts[k] {
        ActionView::Send { to, message } => msg_safe(g2, h2, n, id, to, message),
        ActionView::Apply { .. } => true,
    } by {
        if k < acts.len() - 1 {
            crate::node_laws::lemma_apply_range_only_applies(
                mlog,
                s.commit_index as int,
                s2.commit_index as int,
            );
        }
    }
}

} // verus!
