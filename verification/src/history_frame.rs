//! How the history moves with one node step, and the facts about the
//! history that survive any such move.
use vstd::prelude::*;

use crate::cluster_model::{ghost_grows, ids_below, ClusterGhost};
use crate::event::EventView;
use crate::history::{
    ack_of, acked_by, backed, certified, committed, has_prefix, holds, matches_leaders, msg_safe,
    valid_pair, History,
};
use crate::log::LogEntryView;
use crate::message::MessageView;
use crate::node_model::{observe_term_of, prev_matches, step_of, NodeView};
use crate::types::{NodeId, Role, Term};

verus! {

/// The acknowledgement node `s` sends on event `e`: the index it now
/// matches its leader to, when it accepts an AppendEntries.
pub open spec fn ack_sent(s: NodeView, e: EventView) -> Option<nat> {
    match e {
        EventView::Message { from, message } => match message {
            MessageView::AppendEntries(ae) => {
                let s1 = observe_term_of(s, ae.term);
                if ae.term >= s1.current_term && prev_matches(s1, ae) {
                    Some((ae.prev_log_index + ae.entries.len()) as nat)
                } else {
                    None
                }
            },
            _ => None,
        },
        _ => None,
    }
}

/// The history after node `id`, in state `s`, takes event `e`: a leader's
/// log is recorded under its term (with the votes that elected it, the
/// first time), a first vote of a term records the voter's log, and a
/// leader acknowledges its whole log, a follower what it accepted.
pub open spec fn history_after(h: History, id: NodeId, s: NodeView, e: EventView) -> History {
    let s2 = step_of(s, e).0;
    let t2 = s2.current_term;
    History {
        lt: if s2.role == Role::Leader {
            h.lt.insert(t2, s2.log)
        } else {
            h.lt
        },
        ldr: if s2.role == Role::Leader {
            h.ldr.insert(t2, id)
        } else {
            h.ldr
        },
        ev: if s2.role == Role::Leader && !h.lt.contains_key(t2) {
            h.ev.insert(t2, s2.votes_received)
        } else {
            h.ev
        },
        vlog: if s2.voted_for is Some && !h.vlog.contains_key((id, t2)) {
            h.vlog.insert((id, t2), s2.log)
        } else {
            h.vlog
        },
        acks: if s2.role == Role::Leader {
            h.acks.insert((id, t2), s2.log.len())
        } else {
            match ack_sent(s, e) {
                Some(m) => h.acks.insert(
                    (id, t2),
                    if ack_of(h, id, t2) >= m {
                        ack_of(h, id, t2)
                    } else {
                        m
                    },
                ),
                None => h.acks,
            }
        },
    }
}

/// `a` starts with all of `b`.
pub open spec fn extends(a: Seq<LogEntryView>, b: Seq<LogEntryView>) -> bool {
    b.len() <= a.len() && a.subrange(0, b.len() as int) == b
}

/// `h2` keeps everything `h` recorded: leader logs only grow, leaders,
/// their voters and vote logs stay, acknowledgements only grow.
pub open spec fn history_grows(h: History, h2: History) -> bool {
    &&& forall|t: Term| #[trigger]
        h.lt.contains_key(t) ==> {
            &&& h2.lt.contains_key(t)
            &&& extends(h2.lt[t], h.lt[t])
            &&& h2.ldr[t] == h.ldr[t]
            &&& h2.ev[t] == h.ev[t]
        }
    &&& forall|k: (NodeId, Term)| #[trigger]
        h.vlog.contains_key(k) ==> h2.vlog.contains_key(k) && h2.vlog[k] == h.vlog[k]
    &&& forall|v: NodeId, t: Term| #[trigger] ack_of(h2, v, t) >= ack_of(h, v, t)
}

/// A prefix of an extended log is the same prefix.
pub proof fn lemma_extends_prefix(a: Seq<LogEntryView>, b: Seq<LogEntryView>, n: int)
    requires
        extends(a, b),
        0 <= n <= b.len(),
    ensures
        a.subrange(0, n) == b.subrange(0, n),
{
    assert(a.subrange(0, n) =~= a.subrange(0, b.len() as int).subrange(0, n));
}

/// A backed position stays backed as the history grows.
pub proof fn lemma_grows_backed(h: History, h2: History, log: Seq<LogEntryView>, k: int)
    requires
        history_grows(h, h2),
        0 <= k < log.len(),
        backed(h, log, k),
    ensures
        backed(h2, log, k),
{
    let t = log[k].term;
    assert(h.lt.contains_key(t));
    lemma_extends_prefix(h2.lt[t], h.lt[t], k + 1);
}

/// A log matching the leader logs still does as the history grows.
pub proof fn lemma_grows_matches(h: History, h2: History, log: Seq<LogEntryView>)
    requires
        history_grows(h, h2),
        matches_leaders(h, log),
    ensures
        matches_leaders(h2, log),
{
    assert forall|k: int| 0 <= k < log.len() implies #[trigger] backed(h2, log, k) by {
        assert(backed(h, log, k));
        lemma_grows_backed(h, h2, log, k);
    }
}

/// A valid pair stays valid, and which logs hold it does not change.
pub proof fn lemma_grows_pair(h: History, h2: History, t: Term, n: int)
    requires
        history_grows(h, h2),
        valid_pair(h, t, n),
    ensures
        valid_pair(h2, t, n),
        h2.lt[t].subrange(0, n) == h.lt[t].subrange(0, n),
        forall|log: Seq<LogEntryView>| #[trigger] holds(h2, t, n, log) == holds(h, t, n, log),
{
    lemma_extends_prefix(h2.lt[t], h.lt[t], n);
    assert(h2.lt[t][n - 1] == h2.lt[t].subrange(0, n)[n - 1]);
}

/// The nodes that acknowledged a prefix only grow in number.
pub proof fn lemma_grows_acked(h: History, h2: History, count: nat, t: Term, n: int)
    requires
        history_grows(h, h2),
        count <= u64::MAX,
    ensures
        acked_by(h, count, t, n).subset_of(acked_by(h2, count, t, n)),
        acked_by(h2, count, t, n).finite(),
        acked_by(h, count, t, n).len() <= acked_by(h2, count, t, n).len(),
{
    crate::cluster_model::lemma_ids_below(count);
    assert(acked_by(h2, count, t, n).subset_of(ids_below(count)));
    vstd::set_lib::lemma_len_subset(acked_by(h2, count, t, n), ids_below(count));
    assert forall|v: NodeId| acked_by(h, count, t, n).contains(v) implies acked_by(
        h2,
        count,
        t,
        n,
    ).contains(v) by {
        assert(ack_of(h2, v, t) >= ack_of(h, v, t));
    }
    vstd::set_lib::lemma_len_subset(acked_by(h, count, t, n), acked_by(h2, count, t, n));
}

/// A committed prefix stays committed.
pub proof fn lemma_grows_committed(h: History, h2: History, count: nat, t: Term, n: int)
    requires
        history_grows(h, h2),
        count <= u64::MAX,
        committed(h, count, t, n),
    ensures
        committed(h2, count, t, n),
{
    lemma_grows_pair(h, h2, t, n);
    lemma_grows_acked(h, h2, count, t, n);
}

/// A certified prefix stays certified, in any log that keeps it and under
/// any later term.
pub proof fn lemma_grows_certified(
    h: History,
    h2: History,
    count: nat,
    t: Term,
    t2: Term,
    c: int,
    log: Seq<LogEntryView>,
    log2: Seq<LogEntryView>,
)
    requires
        history_grows(h, h2),
        count <= u64::MAX,
        certified(h, count, t, c, log),
        t <= t2,
        has_prefix(log2, log, c),
    ensures
        certified(h2, count, t2, c, log2),
{
    if c != 0 {
        let (t0, n0) = choose|t0: Term, n0: int|
            t0 <= t && committed(h, count, t0, n0) && c <= n0 && has_prefix(log, h.lt[t0], c);
        lemma_grows_committed(h, h2, count, t0, n0);
        lemma_extends_prefix(h2.lt[t0], h.lt[t0], c);
        assert(committed(h2, count, t0, n0));
    }
}

/// A message that agrees with the history still does as the history and
/// the vote record grow.
pub proof fn lemma_grows_msg(
    g: ClusterGhost,
    g2: ClusterGhost,
    h: History,
    h2: History,
    count: nat,
    from: NodeId,
    to: NodeId,
    m: MessageView,
)
    requires
        ghost_grows(g, g2),
        history_grows(h, h2),
        count <= u64::MAX,
        msg_safe(g, h, count, from, to, m),
    ensures
        msg_safe(g2, h2, count, from, to, m),
{
    match m {
        MessageView::RequestVote(req) => {
            assert(h.vlog.contains_key((from, req.term)));
            assert(g.votes.contains_key((from, req.term)));
        },
        MessageView::AppendEntries(ae) => {
            let t = ae.term;
            assert(h.lt.contains_key(t));
            let ll = h.lt[t];
            let ll2 = h2.lt[t];
            let end = ae.prev_log_index + ae.entries.len();
            lemma_extends_prefix(ll2, ll, end);
            assert(ll2.subrange(ae.prev_log_index as int, end) =~= ll2.subrange(0, end).subrange(
                ae.prev_log_index as int,
                end,
            ));
            assert(ll.subrange(ae.prev_log_index as int, end) =~= ll.subrange(0, end).subrange(
                ae.prev_log_index as int,
                end,
            ));
            if ae.prev_log_index > 0 {
                assert(ll2[ae.prev_log_index - 1] == ll2.subrange(0, end)[ae.prev_log_index - 1]);
            }
            lemma_extends_prefix(ll2, ll, ae.leader_commit as int);
            lemma_grows_certified(h, h2, count, t, t, ae.leader_commit as int, ll, ll2);
        },
        MessageView::AppendEntriesReply(r) => {
            assert(ack_of(h2, from, r.term) >= ack_of(h, from, r.term));
        },
        MessageView::RequestVoteReply(_) => {},
    }
}

} // verus!
