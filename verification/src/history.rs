//! The proof-only history of a simulated cluster that State Machine Safety is
//! proved from: the log of every term's leader, the voters that elected it,
//! the log each node held when it cast each vote, and the longest prefix of
//! each term's leader log each node has acknowledged.
use vstd::prelude::*;

use crate::cluster_model::{ids_below, ClusterGhost, ClusterView};
use crate::log::{last_index_of, last_term_of, term_at_of, LogEntryView};
use crate::message::MessageView;
use crate::node_laws::contiguous;
use crate::node_model::{match_of, NodeView};
use crate::types::{LogIndex, NodeId, Role, Term};

verus! {

/// What the cluster has done so far, as far as the safety proof needs it.
pub struct History {
    /// The log of the leader of each term that has had one (it only grows).
    pub lt: Map<Term, Seq<LogEntryView>>,
    /// The leader of each such term.
    pub ldr: Map<Term, NodeId>,
    /// The votes that made it leader.
    pub ev: Map<Term, Set<NodeId>>,
    /// The log a node held when it cast its vote of a term.
    pub vlog: Map<(NodeId, Term), Seq<LogEntryView>>,
    /// The longest prefix of a term's leader log a node acknowledged in it.
    pub acks: Map<(NodeId, Term), nat>,
}

/// The prefix of term `t`'s leader log that node `v` acknowledged.
pub open spec fn ack_of(h: History, v: NodeId, t: Term) -> nat {
    if h.acks.contains_key((v, t)) {
        h.acks[(v, t)]
    } else {
        0
    }
}

/// The majority of a cluster of `n` nodes.
pub open spec fn majority(n: nat) -> nat {
    n / 2 + 1
}

/// `log` starts with the first `n` entries of `src`.
pub open spec fn has_prefix(log: Seq<LogEntryView>, src: Seq<LogEntryView>, n: int) -> bool {
    &&& 0 <= n <= log.len()
    &&& n <= src.len()
    &&& log.subrange(0, n) == src.subrange(0, n)
}

/// Position `k` of `log` is the entry its term's leader holds there, with
/// the same entries before it.
pub open spec fn backed(h: History, log: Seq<LogEntryView>, k: int) -> bool {
    h.lt.contains_key(log[k].term) && has_prefix(log, h.lt[log[k].term], k + 1)
}

/// Every entry of `log` is backed by its term's leader log (Log Matching,
/// stated against leader logs).
pub open spec fn matches_leaders(h: History, log: Seq<LogEntryView>) -> bool {
    &&& contiguous(log)
    &&& forall|k: int| 0 <= k < log.len() ==> #[trigger] backed(h, log, k)
}

/// No entry of `log` has a term past `t`.
pub open spec fn terms_at_most(log: Seq<LogEntryView>, t: Term) -> bool {
    forall|k: int| 0 <= k < log.len() ==> #[trigger] log[k].term <= t
}

/// The first `n` entries of term `t`'s leader log end with an entry of `t`.
pub open spec fn valid_pair(h: History, t: Term, n: int) -> bool {
    &&& h.lt.contains_key(t)
    &&& 1 <= n <= h.lt[t].len()
    &&& h.lt[t][n - 1].term == t
}

/// `log` holds the first `n` entries of term `t`'s leader log.
pub open spec fn holds(h: History, t: Term, n: int, log: Seq<LogEntryView>) -> bool {
    has_prefix(log, h.lt[t], n)
}

/// Every leader of a term in `t + 1 ..= hi` holds the first `n` entries of
/// term `t`'s leader log.
pub open spec fn later_hold(h: History, t: Term, n: int, hi: int) -> bool {
    forall|u: Term|
        #![trigger h.lt.contains_key(u)]
        h.lt.contains_key(u) && t < u <= hi ==> holds(h, t, n, h.lt[u])
}

/// The leader of term `u` is the first after `t` to lack the first `n`
/// entries of `t`'s leader log.
pub open spec fn first_lacking(h: History, t: Term, n: int, u: Term) -> bool {
    &&& valid_pair(h, t, n)
    &&& h.lt.contains_key(u)
    &&& t < u
    &&& !holds(h, t, n, h.lt[u])
    &&& later_hold(h, t, n, u - 1)
}

/// The nodes that acknowledged at least `n` entries of term `t`.
pub open spec fn acked_by(h: History, count: nat, t: Term, n: int) -> Set<NodeId> {
    Set::new(|v: NodeId| v < count && ack_of(h, v, t) >= n)
}

/// The first `n` entries of term `t`'s leader log are committed: they end
/// with an entry of `t` and a majority acknowledged them in `t`.
pub open spec fn committed(h: History, count: nat, t: Term, n: int) -> bool {
    &&& valid_pair(h, t, n)
    &&& acked_by(h, count, t, n).len() >= majority(count)
}

/// The first `c` entries of `log` are committed, by a term no later than `t`.
pub open spec fn certified(h: History, count: nat, t: Term, c: int, log: Seq<LogEntryView>) -> bool {
    c == 0 || exists|t0: Term, n0: int|
        #![trigger committed(h, count, t0, n0)]
        t0 <= t && committed(h, count, t0, n0) && c <= n0 && has_prefix(log, h.lt[t0], c)
}

/// A candidate's log `vc` is at least as up-to-date as a voter's log `vw`.
pub open spec fn up_to_date(vc: Seq<LogEntryView>, vw: Seq<LogEntryView>) -> bool {
    last_term_of(vc) > last_term_of(vw) || (last_term_of(vc) == last_term_of(vw)
        && last_index_of(vc) >= last_index_of(vw))
}

/// What a leader keeps about its followers: next indices within its log
/// and match indices no larger than what each follower acknowledged.
pub open spec fn progress_ok(h: History, s: NodeView) -> bool {
    &&& forall|p: NodeId| #[trigger] s.peers.contains(p) ==> s.next_index.contains_key(p)
    &&& forall|p: NodeId| #[trigger]
        s.next_index.contains_key(p) ==> 1 <= s.next_index[p] <= s.log.len() + 1
    &&& forall|p: NodeId| #[trigger] match_of(s, p) <= ack_of(h, p, s.current_term)
}

/// The applied record `a` of node `s` holds exactly committed entries of its log.
pub open spec fn applied_from(a: Map<LogIndex, Seq<u8>>, s: NodeView) -> bool {
    forall|i: LogIndex| #[trigger]
        a.contains_key(i) ==> 1 <= i <= s.commit_index && a[i] == s.log[i - 1].command
}

/// Node `i` agrees with the history.
pub open spec fn node_safe(c: ClusterView, h: History, i: int) -> bool {
    let n = c.nodes.len();
    let s = c.nodes[i];
    &&& matches_leaders(h, s.log)
    &&& terms_at_most(s.log, s.current_term)
    &&& s.commit_index <= s.log.len()
    &&& certified(h, n, s.current_term, s.commit_index as int, s.log)
    &&& applied_from(c.applied[i], s)
    &&& s.role == Role::Candidate ==> {
        &&& h.vlog.contains_key((i as u64, s.current_term))
        &&& h.vlog[(i as u64, s.current_term)] == s.log
        &&& !(h.lt.contains_key(s.current_term) && h.ldr[s.current_term] == i)
    }
    &&& s.role == Role::Leader ==> {
        &&& h.lt.contains_key(s.current_term)
        &&& h.ldr[s.current_term] == i
        &&& h.lt[s.current_term] == s.log
        &&& ack_of(h, i as u64, s.current_term) == s.log.len()
        &&& progress_ok(h, s)
    }
}

/// The leader of term `t` is recorded with the quorum that elected it.
pub open spec fn leader_ok(c: ClusterView, g: ClusterGhost, h: History, t: Term) -> bool {
    let n = c.nodes.len();
    &&& h.ldr.contains_key(t)
    &&& h.ev.contains_key(t)
    &&& matches_leaders(h, h.lt[t])
    &&& terms_at_most(h.lt[t], t)
    &&& h.ldr[t] < n
    &&& t <= c.nodes[h.ldr[t] as int].current_term
    &&& h.ev[t].subset_of(ids_below(n))
    &&& h.ev[t].len() >= majority(n)
    &&& forall|w: NodeId| #[trigger]
        h.ev[t].contains(w) ==> g.votes.contains_key((w, t)) && g.votes[(w, t)] == h.ldr[t]
}

/// The vote of `v` in term `t` was cast with a log that agrees with the
/// history, and the candidate it went to was at least as up-to-date.
pub open spec fn vote_ok(g: ClusterGhost, h: History, v: NodeId, t: Term) -> bool {
    let cand = g.votes[(v, t)];
    &&& matches_leaders(h, h.vlog[(v, t)])
    &&& terms_at_most(h.vlog[(v, t)], t)
    &&& h.vlog.contains_key((cand, t))
    &&& g.votes.contains_key((cand, t))
    &&& g.votes[(cand, t)] == cand
    &&& up_to_date(h.vlog[(cand, t)], h.vlog[(v, t)])
}

/// An acknowledgement is of a prefix of a leader log, made by a node in a
/// term it has reached.
pub open spec fn acked_ok(c: ClusterView, h: History, k: (NodeId, Term)) -> bool {
    &&& h.lt.contains_key(k.1)
    &&& h.acks[k] <= h.lt[k.1].len()
    &&& k.0 < c.nodes.len()
    &&& k.1 <= c.nodes[k.0 as int].current_term
}

/// A node that acknowledged the first `n` entries of term `t` still holds
/// them, as long as every later leader up to its term does.
pub open spec fn ack_kept(c: ClusterView, h: History, t: Term, n: int, v: NodeId) -> bool {
    valid_pair(h, t, n) && ack_of(h, v, t) >= n && later_hold(
        h,
        t,
        n,
        c.nodes[v as int].current_term as int,
    ) ==> holds(h, t, n, c.nodes[v as int].log)
}

/// A node that acknowledged the first `n` entries of term `t` voted in a
/// later term `u` with a log holding them, if every leader after `t` up to
/// `u` holds them.
pub open spec fn vote_kept(h: History, t: Term, n: int, v: NodeId, u: Term) -> bool {
    valid_pair(h, t, n) && ack_of(h, v, t) >= n && h.vlog.contains_key((v, u)) && t < u
        && later_hold(h, t, n, u as int) ==> holds(h, t, n, h.vlog[(v, u)])
}

/// The voters of the first leader after `t` that lacks the first `n`
/// entries of `t`'s leader log never acknowledged them and have left `t`.
pub open spec fn voters_outside(c: ClusterView, h: History, t: Term, n: int, u: Term) -> bool {
    first_lacking(h, t, n, u) ==> forall|w: NodeId| #[trigger]
        h.ev[u].contains(w) ==> ack_of(h, w, t) < n && c.nodes[w as int].current_term > t
}

/// The history agrees with the cluster and its vote record.
pub open spec fn history_ok(c: ClusterView, g: ClusterGhost, h: History) -> bool {
    let n = c.nodes.len();
    &&& forall|t: Term| #[trigger] h.lt.contains_key(t) ==> leader_ok(c, g, h, t)
    &&& forall|k: (NodeId, Term)| #[trigger] h.vlog.contains_key(k) <==> g.votes.contains_key(k)
    &&& forall|v: NodeId, t: Term| #[trigger] h.vlog.contains_key((v, t)) ==> vote_ok(g, h, v, t)
    &&& forall|k: (NodeId, Term)| #[trigger]
        h.acks.contains_key(k) ==> acked_ok(c, h, k)
    &&& forall|t: Term, m: int, v: NodeId| 0 <= v < n ==> #[trigger] ack_kept(c, h, t, m, v)
    &&& forall|t: Term, m: int, v: NodeId, u: Term| #[trigger] vote_kept(h, t, m, v, u)
    &&& forall|t: Term, m: int, u: Term| #[trigger] voters_outside(c, h, t, m, u)
}

/// A message agrees with the history: a vote request carries its
/// candidate's log at the vote it cast for itself, an AppendEntries carries
/// a slice of its term's leader log and a committed commit index, and a
/// success reply acknowledges no more than its sender did.
pub open spec fn msg_safe(
    g: ClusterGhost,
    h: History,
    count: nat,
    from: NodeId,
    to: NodeId,
    m: MessageView,
) -> bool {
    match m {
        MessageView::RequestVote(req) => {
            &&& h.vlog.contains_key((from, req.term))
            &&& g.votes.contains_key((from, req.term))
            &&& g.votes[(from, req.term)] == from
            &&& req.last_log_index == last_index_of(h.vlog[(from, req.term)])
            &&& req.last_log_term == last_term_of(h.vlog[(from, req.term)])
        },
        MessageView::AppendEntries(ae) => {
            let ll = h.lt[ae.term];
            &&& from != to
            &&& ae.leader_id == from
            &&& h.lt.contains_key(ae.term)
            &&& h.ldr[ae.term] == from
            &&& ae.prev_log_index + ae.entries.len() <= ll.len()
            &&& ae.entries == ll.subrange(
                ae.prev_log_index as int,
                ae.prev_log_index + ae.entries.len(),
            )
            &&& term_at_of(ll, ae.prev_log_index) == Some(ae.prev_log_term)
            &&& ae.leader_commit <= ll.len()
            &&& certified(h, count, ae.term, ae.leader_commit as int, ll)
        },
        MessageView::AppendEntriesReply(r) => {
            &&& from != to
            &&& r.success ==> r.match_index <= ack_of(h, from, r.term)
        },
        MessageView::RequestVoteReply(_) => true,
    }
}

/// The safety invariant of every reachable cluster.
pub open spec fn safety_inv(c: ClusterView, g: ClusterGhost, h: History) -> bool {
    let n = c.nodes.len();
    &&& history_ok(c, g, h)
    &&& forall|i: int| 0 <= i < n ==> #[trigger] node_safe(c, h, i)
    &&& forall|k: int|
        0 <= k < c.net.queue.len() ==> #[trigger] msg_safe(
            g,
            h,
            n,
            c.net.queue[k].from,
            c.net.queue[k].to,
            c.net.queue[k].message,
        )
}

/// Some leader after `t` up to `u` that lacks the first `n` entries of
/// `t`'s leader log is the first to lack them.
pub proof fn lemma_first_lacking(h: History, t: Term, n: int, u: Term) -> (u0: Term)
    requires
        valid_pair(h, t, n),
        h.lt.contains_key(u),
        t < u,
        !holds(h, t, n, h.lt[u]),
    ensures
        u0 <= u,
        first_lacking(h, t, n, u0),
    decreases u,
{
    if later_hold(h, t, n, u - 1) {
        u
    } else {
        let u1 = choose|u1: Term|
            h.lt.contains_key(u1) && t < u1 <= u - 1 && !holds(h, t, n, h.lt[u1]);
        lemma_first_lacking(h, t, n, u1)
    }
}

/// Leader Completeness: committed entries are held by the leader of every
/// later term. The first later leader lacking them was elected by voters
/// that never acknowledged them, and no two majorities are disjoint.
pub proof fn lemma_committed_held(c: ClusterView, g: ClusterGhost, h: History, t: Term, n: int, u: Term)
    requires
        history_ok(c, g, h),
        c.nodes.len() <= u64::MAX,
        committed(h, c.nodes.len(), t, n),
        h.lt.contains_key(u),
        t < u,
    ensures
        holds(h, t, n, h.lt[u]),
{
    if !holds(h, t, n, h.lt[u]) {
        let count = c.nodes.len();
        let u0 = lemma_first_lacking(h, t, n, u);
        assert(voters_outside(c, h, t, n, u0));
        assert(leader_ok(c, g, h, u0));
        let a = h.ev[u0];
        let b = acked_by(h, count, t, n);
        crate::cluster_model::lemma_ids_below(count);
        assert(b.subset_of(ids_below(count)));
        vstd::set_lib::lemma_len_subset(a, ids_below(count));
        vstd::set_lib::lemma_len_subset(b, ids_below(count));
        assert(a.disjoint(b)) by {
            assert forall|w: NodeId| a.contains(w) implies !b.contains(w) by {
                assert(ack_of(h, w, t) < n);
            }
        }
        vstd::set_lib::lemma_set_disjoint_lens(a, b);
        assert((a + b).subset_of(ids_below(count)));
        vstd::set_lib::lemma_len_subset(a + b, ids_below(count));
        assert(false);
    }
}

/// Two nodes agree on every index both have applied: each applied a prefix
/// of its log that is committed, and committed prefixes of different terms
/// are prefixes of one another.
pub proof fn lemma_safety_applied_agree(c: ClusterView, g: ClusterGhost, h: History)
    requires
        safety_inv(c, g, h),
        c.nodes.len() <= u64::MAX,
        c.applied.len() == c.nodes.len(),
    ensures
        crate::cluster_model::applied_agree(c),
{
    let count = c.nodes.len();
    assert forall|a: int, b: int, i: LogIndex|
        0 <= a < c.applied.len() && 0 <= b < c.applied.len() && #[trigger] c.applied[a].contains_key(i)
            && #[trigger] c.applied[b].contains_key(i) implies c.applied[a][i] == c.applied[b][i] by {
        assert(node_safe(c, h, a));
        assert(node_safe(c, h, b));
        let sa = c.nodes[a];
        let sb = c.nodes[b];
        let (ta, na) = choose|t0: Term, n0: int|
            t0 <= sa.current_term && committed(h, count, t0, n0) && sa.commit_index <= n0
                && has_prefix(sa.log, h.lt[t0], sa.commit_index as int);
        let (tb, nb) = choose|t0: Term, n0: int|
            t0 <= sb.current_term && committed(h, count, t0, n0) && sb.commit_index <= n0
                && has_prefix(sb.log, h.lt[t0], sb.commit_index as int);
        let k = i - 1;
        assert(sa.log[k] == sa.log.subrange(0, sa.commit_index as int)[k]);
        assert(sb.log[k] == sb.log.subrange(0, sb.commit_index as int)[k]);
        assert(sa.log[k] == h.lt[ta][k]);
        assert(sb.log[k] == h.lt[tb][k]);
        if ta < tb {
            lemma_committed_held(c, g, h, ta, na, tb);
            assert(h.lt[tb][k] == h.lt[tb].subrange(0, na)[k]);
        } else if tb < ta {
            lemma_committed_held(c, g, h, tb, nb, ta);
            assert(h.lt[ta][k] == h.lt[ta].subrange(0, nb)[k]);
        }
    }
}

/// Wherever `a` and `b` hold entries of the same term, they agree up to there.
pub open spec fn term_matching(a: Seq<LogEntryView>, b: Seq<LogEntryView>) -> bool {
    forall|j: int|
        0 <= j < a.len() && j < b.len() && #[trigger] a[j].term == #[trigger] b[j].term
            ==> a.subrange(0, j + 1) == b.subrange(0, j + 1)
}

/// Two logs that match the leader logs agree up to every position where
/// they hold entries of the same term.
pub proof fn lemma_term_matching(h: History, a: Seq<LogEntryView>, b: Seq<LogEntryView>)
    requires
        matches_leaders(h, a),
        matches_leaders(h, b),
    ensures
        term_matching(a, b),
{
    assert forall|j: int|
        0 <= j < a.len() && j < b.len() && #[trigger] a[j].term == #[trigger] b[j].term
            implies a.subrange(0, j + 1) == b.subrange(0, j + 1) by {
        assert(backed(h, a, j));
        assert(backed(h, b, j));
    }
}

/// The history of a fresh cluster.
pub open spec fn empty_history() -> History {
    History {
        lt: Map::empty(),
        ldr: Map::empty(),
        ev: Map::empty(),
        vlog: Map::empty(),
        acks: Map::empty(),
    }
}

} // verus!
