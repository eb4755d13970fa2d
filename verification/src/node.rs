//! The Raft consensus state machine: `step(event) -> actions`, with no I/O,
//! no clock, and no threads. All timing arrives as `Event::Tick`; all messaging
//! is expressed as `Action::Send`.
use std::collections::{BTreeMap, BTreeSet};
use vstd::prelude::*;

use crate::event::{actions_view, Action, ActionView, Event, EventView};
use crate::log::{copy_bytes, copy_entries, entries_view, entry_at_of, last_index_of, Log, LogEntry, LogEntryView};
use crate::message::{
    AppendEntries, AppendEntriesReply, Message, RequestVote, RequestVoteReply,
};
use crate::node_model::{
    append_entries_for, append_reply_of, apply_committed_of, apply_range, broadcast_of,
    become_candidate_of, become_leader_of, can_extend, highest_committable, advance_commit_of,
    match_of, node_wf, peers_holding, quorum_of, vote_requests_of, NodeView, on_tick_of,
    on_propose_of, on_request_vote_of, on_request_vote_reply_of, grants_vote, log_up_to_date,
    on_append_entries_of, on_append_entries_reply_of, merge_entry, merge_entries, prev_matches,
    observe_term_of, step_of, step_in_range, lemma_step_preserves_wf,
};
use crate::types::{LogIndex, NodeId, Role, Term};

verus! {

broadcast use vstd::std_specs::btree::group_btree_axioms, vstd::laws_cmp::group_laws_cmp;

/// Timeout configuration, in logical ticks.
#[derive(Debug, Clone, Copy)]
pub struct Config {
    pub election_timeout: u32,
    pub heartbeat_timeout: u32,
}

/// A single Raft node.
pub struct RaftNode {
    id: NodeId,
    peers: Vec<NodeId>,
    config: Config,
    // Persistent state (in-memory in this implementation).
    current_term: Term,
    voted_for: Option<NodeId>,
    log: Log,
    // Volatile state.
    role: Role,
    commit_index: LogIndex,
    last_applied: LogIndex,
    leader_id: Option<NodeId>,
    // Timers.
    election_elapsed: u32,
    heartbeat_elapsed: u32,
    // Candidate state.
    votes_received: BTreeSet<NodeId>,
    // Leader state.
    next_index: BTreeMap<NodeId, LogIndex>,
    match_index: BTreeMap<NodeId, LogIndex>,
}

/// The state of a freshly built node.
pub open spec fn initial_node(id: NodeId, peers: Seq<NodeId>, config: Config) -> NodeView {
    NodeView {
        id,
        peers,
        election_timeout: config.election_timeout,
        heartbeat_timeout: config.heartbeat_timeout,
        current_term: 0,
        voted_for: None,
        log: Seq::empty(),
        role: Role::Follower,
        commit_index: 0,
        last_applied: 0,
        leader_id: None,
        election_elapsed: 0,
        heartbeat_elapsed: 0,
        votes_received: Set::empty(),
        next_index: Map::empty(),
        match_index: Map::empty(),
    }
}

impl View for RaftNode {
    type V = NodeView;

    closed spec fn view(&self) -> NodeView {
        NodeView {
            id: self.id,
            peers: self.peers@,
            election_timeout: self.config.election_timeout,
            heartbeat_timeout: self.config.heartbeat_timeout,
            current_term: self.current_term,
            voted_for: self.voted_for,
            log: self.log@,
            role: self.role,
            commit_index: self.commit_index,
            last_applied: self.last_applied,
            leader_id: self.leader_id,
            election_elapsed: self.election_elapsed,
            heartbeat_elapsed: self.heartbeat_elapsed,
            votes_received: self.votes_received@,
            next_index: self.next_index@,
            match_index: self.match_index@,
        }
    }
}

/// Pushes one action, extending the viewed sequence by its view.
fn emit(out: &mut Vec<Action>, a: Action)
    ensures
        actions_view(final(out)@) == actions_view(old(out)@).push(a@),
{
    out.push(a);
    assert(actions_view(out@) =~= actions_view(old(out)@).push(a@));
}

impl RaftNode {
    pub fn new(id: NodeId, peers: Vec<NodeId>, config: Config) -> (node: Self)
        requires
            peers@.len() < usize::MAX,
        ensures
            node@ == initial_node(id, peers@, config),
            node.wf(),
    {
        let node = RaftNode {
            id,
            peers,
            config,
            current_term: 0,
            voted_for: None,
            log: Log::new(),
            role: Role::Follower,
            commit_index: 0,
            last_applied: 0,
            leader_id: None,
            election_elapsed: 0,
            heartbeat_elapsed: 0,
            votes_received: BTreeSet::new(),
            next_index: BTreeMap::new(),
            match_index: BTreeMap::new(),
        };
        node
    }

    /// What every node built by `new` and driven by `step` satisfies.
    pub open spec fn wf(&self) -> bool {
        node_wf(self@)
    }

    // --- Accessors (used by the simulation and tests) ---
    pub fn id(&self) -> (r: NodeId)
        ensures
            r == self@.id,
    {
        self.id
    }

    pub fn role(&self) -> (r: Role)
        ensures
            r == self@.role,
    {
        self.role
    }

    pub fn current_term(&self) -> (r: Term)
        ensures
            r == self@.current_term,
    {
        self.current_term
    }

    pub fn commit_index(&self) -> (r: LogIndex)
        ensures
            r == self@.commit_index,
    {
        self.commit_index
    }

    pub fn last_applied(&self) -> (r: LogIndex)
        ensures
            r == self@.last_applied,
    {
        self.last_applied
    }

    pub fn is_leader(&self) -> (r: bool)
        ensures
            r == (self@.role == Role::Leader),
    {
        self.role == Role::Leader
    }

    pub fn leader_id(&self) -> (r: Option<NodeId>)
        ensures
            r == self@.leader_id,
    {
        self.leader_id
    }

    pub fn log_last_index(&self) -> (r: LogIndex)
        ensures
            r == last_index_of(self@.log),
    {
        self.log.last_index()
    }

    /// The number of votes constituting a majority of the cluster.
    fn quorum(&self) -> (q: usize)
        requires
            self.wf(),
        ensures
            q == quorum_of(self@),
    {
        let total = self.peers.len() + 1;
        total / 2 + 1
    }

    fn build_append_entries(&self, to: NodeId) -> (m: Message)
        requires
            can_extend(self@),
        ensures
            m@ == append_entries_for(self@, to),
    {
        let default_next = self.log.last_index() + 1;
        let next = match self.next_index.get(&to) {
            Some(v) => *v,
            None => default_next,
        };
        let prev_log_index = if next == 0 { 0 } else { next - 1 };
        let prev_log_term = match self.log.term_at(prev_log_index) {
            Some(t) => t,
            None => 0,
        };
        let entries = copy_entries(self.log.entries_from(next));
        Message::AppendEntries(AppendEntries {
            term: self.current_term,
            leader_id: self.id,
            prev_log_index,
            prev_log_term,
            entries,
            leader_commit: self.commit_index,
        })
    }

    fn broadcast_append_entries(&self, out: &mut Vec<Action>)
        requires
            self@.peers.len() > 0 ==> can_extend(self@),
        ensures
            actions_view(final(out)@) == actions_view(old(out)@) + broadcast_of(self@),
    {
        let ghost start = actions_view(out@);
        let mut i: usize = 0;
        while i < self.peers.len()
            invariant
                i <= self@.peers.len(),
                self@.peers.len() > 0 ==> can_extend(self@),
                actions_view(out@) == start + broadcast_of(self@).subrange(0, i as int),
            decreases self@.peers.len() - i,
        {
            let peer = self.peers[i];
            let message = self.build_append_entries(peer);
            emit(out, Action::Send { to: peer, message });
            i = i + 1;
            assert(broadcast_of(self@).subrange(0, i as int) =~= broadcast_of(self@).subrange(
                0,
                i - 1,
            ).push(broadcast_of(self@)[i - 1]));
        }
        assert(broadcast_of(self@).subrange(0, i as int) =~= broadcast_of(self@));
    }

    fn reply_append(&self, to: NodeId, success: bool, match_index: LogIndex, out: &mut Vec<Action>)
        ensures
            actions_view(final(out)@) == actions_view(old(out)@).push(
                append_reply_of(self@, to, success, match_index),
            ),
    {
        emit(
            out,
            Action::Send {
                to,
                message: Message::AppendEntriesReply(
                    AppendEntriesReply { term: self.current_term, success, match_index },
                ),
            },
        );
    }

    fn apply_committed(&mut self, out: &mut Vec<Action>)
        ensures
            final(self)@ == apply_committed_of(old(self)@).0,
            actions_view(final(out)@) == actions_view(old(out)@) + apply_committed_of(
                old(self)@,
            ).1,
    {
        let ghost s0 = self@;
        let ghost start = actions_view(out@);
        while self.last_applied < self.commit_index
            invariant
                s0.last_applied < s0.commit_index ==> s0.last_applied <= self.last_applied
                    <= s0.commit_index,
                s0.last_applied >= s0.commit_index ==> self.last_applied == s0.last_applied,
                self@ == (NodeView { last_applied: self.last_applied, ..s0 }),
                actions_view(out@) == start + apply_range(
                    s0.log,
                    s0.last_applied as int,
                    if s0.last_applied < s0.commit_index {
                        self.last_applied as int
                    } else {
                        s0.last_applied as int
                    },
                ),
            decreases self.commit_index - self.last_applied,
        {
            self.last_applied = self.last_applied + 1;
            let ghost mid = actions_view(out@);
            match self.log.entry_at(self.last_applied) {
                Some(entry) => {
                    let a = Action::Apply { index: entry.index, command: copy_bytes(&entry.command) };
                    emit(out, a);
                },
                None => {},
            }
            assert(apply_range(s0.log, s0.last_applied as int, self.last_applied as int)
                =~= apply_range(s0.log, s0.last_applied as int, self.last_applied - 1) + match entry_at_of(
                s0.log,
                self.last_applied,
            ) {
                Some(e) => seq![ActionView::Apply { index: e.index, command: e.command }],
                None => Seq::empty(),
            });
        }
        assert(start + apply_range(s0.log, s0.last_applied as int, s0.last_applied as int) =~= start);
    }
    /// How many replicas (the leader included) hold index `n`.
    fn replica_count(&self, n: LogIndex) -> (count: usize)
        requires
            self.wf(),
        ensures
            count == 1 + peers_holding(self@, self@.peers, n),
    {
        let mut count: usize = 1;
        let mut k: usize = 0;
        while k < self.peers.len()
            invariant
                k <= self@.peers.len(),
                self.wf(),
                count == 1 + peers_holding(self@, self@.peers.subrange(0, k as int), n),
                count <= k + 1,
            decreases self@.peers.len() - k,
        {
            let peer = self.peers[k];
            let held = match self.match_index.get(&peer) {
                Some(v) => *v,
                None => 0,
            };
            assert(self@.peers.subrange(0, k + 1).drop_last() =~= self@.peers.subrange(0, k as int));
            assert(held == match_of(self@, peer));
            if held >= n {
                count = count + 1;
            }
            k = k + 1;
        }
        assert(self@.peers.subrange(0, k as int) =~= self@.peers);
        count
    }

    fn advance_commit(&mut self, out: &mut Vec<Action>)
        requires
            old(self).wf(),
        ensures
            final(self)@ == advance_commit_of(old(self)@).0,
            actions_view(final(out)@) == actions_view(old(out)@) + advance_commit_of(old(self)@).1,
    {
        let ghost s0 = self@;
        let last = self.log.last_index();
        let mut new_commit = self.commit_index;
        let mut n = last;
        let q = self.quorum();
        while n > self.commit_index
            invariant_except_break
                self@ == s0,
                self.wf(),
                q == quorum_of(s0),
                new_commit == s0.commit_index,
                highest_committable(s0, last) == highest_committable(s0, n),
            ensures
                self@ == s0,
                new_commit == highest_committable(s0, last),
            decreases n,
        {
            let count = self.replica_count(n);
            let same_term = match self.log.term_at(n) {
                Some(t) => t == self.current_term,
                None => false,
            };
            if count >= q && same_term {
                new_commit = n;
                break;
            }
            n = n - 1;
        }
        if new_commit > self.commit_index {
            self.commit_index = new_commit;
            self.apply_committed(out);
        } else {
            assert(actions_view(out@) =~= actions_view(old(out)@) + Seq::<ActionView>::empty());
        }
    }

    fn become_leader(&mut self, out: &mut Vec<Action>)
        requires
            can_extend(old(self)@),
        ensures
            final(self)@ == become_leader_of(old(self)@).0,
            actions_view(final(out)@) == actions_view(old(out)@) + become_leader_of(old(self)@).1,
    {
        let ghost s0 = self@;
        self.role = Role::Leader;
        self.leader_id = Some(self.id);
        let next = self.log.last_index() + 1;
        let mut next_index: BTreeMap<NodeId, LogIndex> = BTreeMap::new();
        let mut match_index: BTreeMap<NodeId, LogIndex> = BTreeMap::new();
        let mut i: usize = 0;
        while i < self.peers.len()
            invariant
                i <= self@.peers.len(),
                self@.peers == s0.peers,
                next_index@ == Map::new(
                    |p: NodeId| self@.peers.subrange(0, i as int).contains(p),
                    |p: NodeId| next,
                ),
                match_index@ == Map::new(
                    |p: NodeId| self@.peers.subrange(0, i as int).contains(p),
                    |p: NodeId| 0u64,
                ),
            decreases self@.peers.len() - i,
        {
            let peer = self.peers[i];
            next_index.insert(peer, next);
            match_index.insert(peer, 0);
            i = i + 1;
            proof {
                let before = self@.peers.subrange(0, i - 1);
                assert(self@.peers.subrange(0, i as int) =~= before.push(peer));
                assert forall|p: NodeId|
                    #![auto]
                    self@.peers.subrange(0, i as int).contains(p) <==> (before.contains(p) || p
                        == peer) by {
                    vstd::seq_lib::lemma_seq_contains_after_push(before, peer, p);
                }
            }
            assert(next_index@ =~= Map::new(
                |p: NodeId| self@.peers.subrange(0, i as int).contains(p),
                |p: NodeId| next,
            ));
            assert(match_index@ =~= Map::new(
                |p: NodeId| self@.peers.subrange(0, i as int).contains(p),
                |p: NodeId| 0u64,
            ));
        }
        assert(self@.peers.subrange(0, i as int) =~= self@.peers);
        self.next_index = next_index;
        self.match_index = match_index;
        self.heartbeat_elapsed = 0;
        assert(self@ == become_leader_of(s0).0);
        self.broadcast_append_entries(out);
    }

    fn become_candidate(&mut self, out: &mut Vec<Action>)
        requires
            old(self)@.current_term < u64::MAX,
            old(self)@.peers.len() == 0 ==> can_extend(old(self)@),
        ensures
            final(self)@ == become_candidate_of(old(self)@).0,
            actions_view(final(out)@) == actions_view(old(out)@) + become_candidate_of(
                old(self)@,
            ).1,
    {
        let ghost s0 = self@;
        self.current_term = self.current_term + 1;
        self.role = Role::Candidate;
        self.voted_for = Some(self.id);
        self.votes_received.clear();
        self.votes_received.insert(self.id);
        self.election_elapsed = 0;
        self.leader_id = None;
        assert(self.votes_received@ =~= Set::<NodeId>::empty().insert(self.id));
        if self.peers.len() == 0 {
            self.become_leader(out);
            return;
        }
        let last_log_index = self.log.last_index();
        let last_log_term = self.log.last_term();
        let ghost start = actions_view(out@);
        let mut i: usize = 0;
        while i < self.peers.len()
            invariant
                i <= self@.peers.len(),
                self@ == become_candidate_of(s0).0,
                last_log_index == last_index_of(self@.log),
                last_log_term == crate::log::last_term_of(self@.log),
                actions_view(out@) == start + vote_requests_of(self@).subrange(0, i as int),
            decreases self@.peers.len() - i,
        {
            let peer = self.peers[i];
            emit(
                out,
                Action::Send {
                    to: peer,
                    message: Message::RequestVote(
                        RequestVote {
                            term: self.current_term,
                            candidate_id: self.id,
                            last_log_index,
                            last_log_term,
                        },
                    ),
                },
            );
            i = i + 1;
            assert(vote_requests_of(self@).subrange(0, i as int) =~= vote_requests_of(
                self@,
            ).subrange(0, i - 1).push(vote_requests_of(self@)[i - 1]));
        }
        assert(vote_requests_of(self@).subrange(0, i as int) =~= vote_requests_of(self@));
    }
    fn on_tick(&mut self, out: &mut Vec<Action>)
        requires
            old(self).wf(),
            step_in_range(old(self)@, EventView::Tick),
        ensures
            final(self)@ == on_tick_of(old(self)@).0,
            actions_view(final(out)@) == actions_view(old(out)@) + on_tick_of(old(self)@).1,
    {
        match self.role {
            Role::Leader => {
                self.heartbeat_elapsed = self.heartbeat_elapsed + 1;
                if self.heartbeat_elapsed >= self.config.heartbeat_timeout {
                    self.heartbeat_elapsed = 0;
                    self.broadcast_append_entries(out);
                } else {
                    assert(actions_view(out@) =~= actions_view(old(out)@) + Seq::<ActionView>::empty());
                }
            },
            Role::Follower | Role::Candidate => {
                self.election_elapsed = self.election_elapsed + 1;
                if self.election_elapsed >= self.config.election_timeout {
                    self.become_candidate(out);
                } else {
                    assert(actions_view(out@) =~= actions_view(old(out)@) + Seq::<ActionView>::empty());
                }
            },
        }
    }

    fn on_propose(&mut self, command: Vec<u8>, out: &mut Vec<Action>)
        requires
            old(self).wf(),
            step_in_range(old(self)@, EventView::Propose { command: command@ }),
        ensures
            final(self)@ == on_propose_of(old(self)@, command@).0,
            actions_view(final(out)@) == actions_view(old(out)@) + on_propose_of(
                old(self)@,
                command@,
            ).1,
    {
        if self.role != Role::Leader {
            assert(actions_view(out@) =~= actions_view(old(out)@) + Seq::<ActionView>::empty());
            return;  // only the leader accepts proposals
        }
        let entry = LogEntry { term: self.current_term, index: self.log.last_index() + 1, command };
        self.log.append(entry);
        if self.peers.len() == 0 {
            self.advance_commit(out);  // single-node cluster commits immediately
        } else {
            self.broadcast_append_entries(out);
        }
    }

    /// The election restriction: a candidate's log must be at least as
    /// up-to-date as ours (higher last term, or equal term and >= index).
    fn log_is_up_to_date(&self, cand_term: Term, cand_index: LogIndex) -> (r: bool)
        ensures
            r == log_up_to_date(self@, cand_term, cand_index),
    {
        let my_term = self.log.last_term();
        let my_index = self.log.last_index();
        cand_term > my_term || (cand_term == my_term && cand_index >= my_index)
    }

    fn on_request_vote(&mut self, from: NodeId, req: RequestVote, out: &mut Vec<Action>)
        ensures
            final(self)@ == on_request_vote_of(old(self)@, from, req).0,
            actions_view(final(out)@) == actions_view(old(out)@) + on_request_vote_of(
                old(self)@,
                from,
                req,
            ).1,
    {
        let voted_ok = match self.voted_for {
            None => true,
            Some(v) => v == req.candidate_id,
        };
        let grant = req.term == self.current_term && voted_ok && self.log_is_up_to_date(
            req.last_log_term,
            req.last_log_index,
        );
        assert(grant == grants_vote(old(self)@, req));
        if grant {
            self.voted_for = Some(req.candidate_id);
            self.election_elapsed = 0;
        }
        emit(
            out,
            Action::Send {
                to: from,
                message: Message::RequestVoteReply(
                    RequestVoteReply { term: self.current_term, vote_granted: grant },
                ),
            },
        );
        assert(actions_view(out@) =~= actions_view(old(out)@) + on_request_vote_of(
            old(self)@,
            from,
            req,
        ).1);
    }

    fn on_request_vote_reply(&mut self, from: NodeId, reply: RequestVoteReply, out: &mut Vec<Action>)
        requires
            old(self).wf(),
            old(self)@.role == Role::Candidate && reply.term == old(self)@.current_term
                && reply.vote_granted && old(self)@.votes_received.insert(from).len() >= quorum_of(
                old(self)@,
            ) ==> can_extend(old(self)@),
        ensures
            final(self)@ == on_request_vote_reply_of(old(self)@, from, reply).0,
            actions_view(final(out)@) == actions_view(old(out)@) + on_request_vote_reply_of(
                old(self)@,
                from,
                reply,
            ).1,
    {
        if self.role != Role::Candidate || reply.term != self.current_term {
            assert(actions_view(out@) =~= actions_view(old(out)@) + Seq::<ActionView>::empty());
            return;
        }
        if reply.vote_granted {
            self.votes_received.insert(from);
            let q = self.quorum();
            if self.votes_received.len() >= q {
                self.become_leader(out);
            } else {
                assert(actions_view(out@) =~= actions_view(old(out)@) + Seq::<ActionView>::empty());
            }
        } else {
            assert(actions_view(out@) =~= actions_view(old(out)@) + Seq::<ActionView>::empty());
        }
    }

    /// Merges the entries of an accepted AppendEntries request into the log.
    fn merge_into_log(&mut self, entries: &Vec<LogEntry>)
        ensures
            final(self)@ == (NodeView {
                log: merge_entries(old(self)@.log, entries_view(entries@)),
                ..old(self)@
            }),
    {
        let ghost s0 = self@;
        let ghost ev = entries_view(entries@);
        assert(ev.subrange(0, ev.len() as int) =~= ev);
        let mut j: usize = 0;
        while j < entries.len()
            invariant
                j <= entries@.len(),
                ev == entries_view(entries@),
                self@ == (NodeView { log: self@.log, ..s0 }),
                merge_entries(self@.log, ev.subrange(j as int, ev.len() as int)) == merge_entries(
                    s0.log,
                    ev,
                ),
            decreases entries@.len() - j,
        {
            let entry = &entries[j];
            let ghost before = self@.log;
            let same = match self.log.entry_at(entry.index) {
                Some(existing) => Some(existing.term == entry.term),
                None => None,
            };
            match same {
                Some(true) => {},
                Some(false) => {
                    self.log.truncate_from(entry.index);
                    self.log.append(entry.clone());
                },
                None => {
                    self.log.append(entry.clone());
                },
            }
            proof {
                assert(ev[j as int] == entry@);
                assert(self@.log == merge_entry(before, entry@));
                assert(ev.subrange(j as int, ev.len() as int).drop_first() =~= ev.subrange(
                    j + 1,
                    ev.len() as int,
                ));
            }
            j = j + 1;
        }
        assert(ev.subrange(j as int, ev.len() as int) =~= Seq::<LogEntryView>::empty());
    }

    fn on_append_entries(&mut self, ae: AppendEntries, out: &mut Vec<Action>)
        requires
            old(self).wf(),
            ae.term >= old(self)@.current_term && prev_matches(old(self)@, ae@)
                ==> ae.prev_log_index + ae.entries@.len() <= u64::MAX,
        ensures
            final(self)@ == on_append_entries_of(old(self)@, ae@).0,
            actions_view(final(out)@) == actions_view(old(out)@) + on_append_entries_of(
                old(self)@,
                ae@,
            ).1,
    {
        if ae.term < self.current_term {
            // Stale leader: reject and let it learn our higher term.
            self.reply_append(ae.leader_id, false, 0, out);
            assert(actions_view(out@) =~= actions_view(old(out)@) + on_append_entries_of(
                old(self)@,
                ae@,
            ).1);
            return;
        }
        // A valid leader for the current term: (re)establish follower status.
        self.role = Role::Follower;
        self.leader_id = Some(ae.leader_id);
        self.election_elapsed = 0;

        // Log-matching check: we must already hold prev_log_index at prev_log_term.
        let prev_ok = match self.log.term_at(ae.prev_log_index) {
            Some(term) => term == ae.prev_log_term,
            None => false,
        };
        if !prev_ok {
            self.reply_append(ae.leader_id, false, 0, out);
            assert(actions_view(out@) =~= actions_view(old(out)@) + on_append_entries_of(
                old(self)@,
                ae@,
            ).1);
            return;
        }
        // Append entries, truncating on any conflicting term.
        self.merge_into_log(&ae.entries);
        let match_index = ae.prev_log_index + ae.entries.len() as u64;
        let ghost mid = actions_view(out@);
        if ae.leader_commit > self.commit_index {
            let a = if ae.leader_commit < match_index { ae.leader_commit } else { match_index };
            let last = self.log.last_index();
            let new_commit = if a < last { a } else { last };
            if new_commit > self.commit_index {
                self.commit_index = new_commit;
                self.apply_committed(out);
            }
        }
        self.reply_append(ae.leader_id, true, match_index, out);
        assert(actions_view(out@) =~= actions_view(old(out)@) + on_append_entries_of(
            old(self)@,
            ae@,
        ).1);
    }

    fn on_append_entries_reply(&mut self, from: NodeId, reply: AppendEntriesReply, out: &mut Vec<Action>)
        requires
            old(self).wf(),
            old(self)@.role == Role::Leader && reply.term == old(self)@.current_term ==> if reply.success {
                reply.match_index < u64::MAX
            } else {
                can_extend(old(self)@)
            },
        ensures
            final(self)@ == on_append_entries_reply_of(old(self)@, from, reply).0,
            actions_view(final(out)@) == actions_view(old(out)@) + on_append_entries_reply_of(
                old(self)@,
                from,
                reply,
            ).1,
    {
        if self.role != Role::Leader || reply.term != self.current_term {
            assert(actions_view(out@) =~= actions_view(old(out)@) + Seq::<ActionView>::empty());
            return;
        }
        if reply.success {
            self.match_index.insert(from, reply.match_index);
            self.next_index.insert(from, reply.match_index + 1);
            self.advance_commit(out);
        } else {
            // Back off and retry from an earlier point in the follower's log.
            let next = match self.next_index.get(&from) {
                Some(v) => *v,
                None => 1,
            };
            let new_next = if next <= 1 { 1 } else { next - 1 };
            self.next_index.insert(from, new_next);
            let message = self.build_append_entries(from);
            emit(out, Action::Send { to: from, message });
            assert(actions_view(out@) =~= actions_view(old(out)@) + on_append_entries_reply_of(
                old(self)@,
                from,
                reply,
            ).1);
        }
    }

    /// Drives the state machine with one event, returning the resulting actions.
    pub fn step(&mut self, event: Event) -> (actions: Vec<Action>)
        requires
            old(self).wf(),
            step_in_range(old(self)@, event@),
        ensures
            final(self).wf(),
            (final(self)@, actions_view(actions@)) == step_of(old(self)@, event@),
    {
        let ghost s0 = self@;
        let ghost e0 = event@;
        let mut actions: Vec<Action> = Vec::new();
        assert(actions_view(actions@) =~= Seq::<ActionView>::empty());
        match event {
            Event::Tick => self.on_tick(&mut actions),
            Event::Propose { command } => self.on_propose(command, &mut actions),
            Event::Message { from, message } => {
                // Universal rule: any message with a higher term forces a
                // step-down to follower and resets the vote for the new term.
                if message.term() > self.current_term {
                    self.current_term = message.term();
                    self.voted_for = None;
                    self.role = Role::Follower;
                    self.leader_id = None;
                    self.votes_received.clear();
                }
                assert(self@ == observe_term_of(s0, message@.term()));
                match message {
                    Message::RequestVote(m) => self.on_request_vote(from, m, &mut actions),
                    Message::RequestVoteReply(m) => {
                        self.on_request_vote_reply(from, m, &mut actions);
                    },
                    Message::AppendEntries(m) => self.on_append_entries(m, &mut actions),
                    Message::AppendEntriesReply(m) => {
                        self.on_append_entries_reply(from, m, &mut actions);
                    },
                }
            },
        }
        proof {
            lemma_step_preserves_wf(s0, e0);
        }
        assert(actions_view(actions@) =~= step_of(s0, e0).1);
        actions
    }
}

} // verus!
