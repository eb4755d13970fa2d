use raftcache::event::{Action, Event};
use raftcache::log::LogEntry;
use raftcache::message::{AppendEntries, AppendEntriesReply, Message, RequestVote, RequestVoteReply};
use raftcache::node::{Config, RaftNode};
use raftcache::types::Role;

fn cfg() -> Config {
    Config { election_timeout: 3, heartbeat_timeout: 1 }
}

fn node() -> RaftNode {
    RaftNode::new(0, vec![1, 2], cfg())
}

fn count_sends(actions: &[Action]) -> usize {
    actions.iter().filter(|a| matches!(a, Action::Send { .. })).count()
}

fn make_leader() -> RaftNode {
    let mut n = node();
    n.step(Event::Tick);
    n.step(Event::Tick);
    n.step(Event::Tick);
    n.step(Event::Message {
        from: 1,
        message: Message::RequestVoteReply(RequestVoteReply { term: 1, vote_granted: true }),
    });
    n
}

#[test]
fn new_node_is_follower_at_term_zero() {
    let n = node();
    assert_eq!(n.role(), Role::Follower);
    assert_eq!(n.current_term(), 0);
}

#[test]
fn tick_to_timeout_starts_election() {
    let mut n = node();
    n.step(Event::Tick);
    n.step(Event::Tick);
    let actions = n.step(Event::Tick); // third tick hits election_timeout
    assert_eq!(n.role(), Role::Candidate);
    assert_eq!(n.current_term(), 1);
    assert_eq!(count_sends(&actions), 2); // RequestVote to both peers
}

#[test]
fn grants_vote_to_up_to_date_candidate() {
    let mut n = node();
    let actions = n.step(Event::Message {
        from: 1,
        message: Message::RequestVote(RequestVote {
            term: 1,
            candidate_id: 1,
            last_log_index: 0,
            last_log_term: 0,
        }),
    });
    match &actions[0] {
        Action::Send { message: Message::RequestVoteReply(r), .. } => {
            assert!(r.vote_granted);
        }
        _ => panic!("expected a vote reply"),
    }
}

#[test]
fn denies_second_vote_in_same_term() {
    let mut n = node();
    let rv = |cand| RequestVote { term: 1, candidate_id: cand, last_log_index: 0, last_log_term: 0 };
    n.step(Event::Message { from: 1, message: Message::RequestVote(rv(1)) });
    let actions = n.step(Event::Message { from: 2, message: Message::RequestVote(rv(2)) });
    match &actions[0] {
        Action::Send { message: Message::RequestVoteReply(r), .. } => {
            assert!(!r.vote_granted);
        }
        _ => panic!("expected a vote reply"),
    }
}

#[test]
fn election_restriction_denies_behind_candidate() {
    let mut n = node();
    // Give n a log entry at term 2 via a leader.
    n.step(Event::Message {
        from: 9,
        message: Message::AppendEntries(AppendEntries {
            term: 2,
            leader_id: 9,
            prev_log_index: 0,
            prev_log_term: 0,
            entries: vec![LogEntry { term: 2, index: 1, command: vec![] }],
            leader_commit: 0,
        }),
    });
    // A candidate whose log ends at term 1 is behind -> deny.
    let actions = n.step(Event::Message {
        from: 5,
        message: Message::RequestVote(RequestVote {
            term: 3,
            candidate_id: 5,
            last_log_index: 1,
            last_log_term: 1,
        }),
    });
    match &actions[0] {
        Action::Send { message: Message::RequestVoteReply(r), .. } => {
            assert!(!r.vote_granted);
        }
        _ => panic!("expected a vote reply"),
    }
}

#[test]
fn candidate_becomes_leader_on_majority() {
    let mut n = node();
    n.step(Event::Tick);
    n.step(Event::Tick);
    n.step(Event::Tick); // now candidate, term 1
    let actions = n.step(Event::Message {
        from: 1,
        message: Message::RequestVoteReply(RequestVoteReply { term: 1, vote_granted: true }),
    });
    assert_eq!(n.role(), Role::Leader);
    assert_eq!(count_sends(&actions), 2); // initial heartbeats
}

#[test]
fn leader_appends_on_propose() {
    let mut n = make_leader();
    let actions = n.step(Event::Propose { command: vec![7] });
    assert_eq!(n.log_last_index(), 1);
    assert!(actions.iter().any(|a| matches!(
        a,
        Action::Send { message: Message::AppendEntries(ae), .. } if !ae.entries.is_empty()
    )));
}

#[test]
fn leader_commits_current_term_entry_on_majority() {
    let mut n = make_leader();
    n.step(Event::Propose { command: vec![7] }); // entry index 1, term 1
    let actions = n.step(Event::Message {
        from: 1,
        message: Message::AppendEntriesReply(AppendEntriesReply {
            term: 1,
            success: true,
            match_index: 1,
        }),
    });
    assert_eq!(n.commit_index(), 1);
    assert!(actions.iter().any(|a| matches!(a, Action::Apply { index: 1, .. })));
}

#[test]
fn follower_appends_and_acks() {
    let mut n = node();
    let actions = n.step(Event::Message {
        from: 1,
        message: Message::AppendEntries(AppendEntries {
            term: 1,
            leader_id: 1,
            prev_log_index: 0,
            prev_log_term: 0,
            entries: vec![LogEntry { term: 1, index: 1, command: vec![] }],
            leader_commit: 0,
        }),
    });
    assert_eq!(n.log_last_index(), 1);
    match &actions[0] {
        Action::Send { message: Message::AppendEntriesReply(r), .. } => {
            assert!(r.success);
            assert_eq!(r.match_index, 1);
        }
        _ => panic!("expected an append reply"),
    }
}

#[test]
fn follower_rejects_mismatched_prev() {
    let mut n = node();
    let actions = n.step(Event::Message {
        from: 1,
        message: Message::AppendEntries(AppendEntries {
            term: 1,
            leader_id: 1,
            prev_log_index: 5, // we don't have index 5
            prev_log_term: 1,
            entries: vec![],
            leader_commit: 0,
        }),
    });
    match &actions[0] {
        Action::Send { message: Message::AppendEntriesReply(r), .. } => assert!(!r.success),
        _ => panic!("expected an append reply"),
    }
}

#[test]
fn follower_applies_committed_entries() {
    let mut n = node();
    let actions = n.step(Event::Message {
        from: 1,
        message: Message::AppendEntries(AppendEntries {
            term: 1,
            leader_id: 1,
            prev_log_index: 0,
            prev_log_term: 0,
            entries: vec![LogEntry { term: 1, index: 1, command: vec![42] }],
            leader_commit: 1,
        }),
    });
    assert_eq!(n.commit_index(), 1);
    assert!(actions.iter().any(|a| matches!(a, Action::Apply { index: 1, .. })));
}

#[test]
fn steps_down_on_higher_term() {
    let mut n = node();
    n.step(Event::Tick);
    n.step(Event::Tick);
    n.step(Event::Tick); // candidate, term 1
    n.step(Event::Message {
        from: 1,
        message: Message::AppendEntries(AppendEntries {
            term: 5,
            leader_id: 1,
            prev_log_index: 0,
            prev_log_term: 0,
            entries: vec![],
            leader_commit: 0,
        }),
    });
    assert_eq!(n.role(), Role::Follower);
    assert_eq!(n.current_term(), 5);
}

// --- further scenarios ---

#[test]
fn lone_node_wins_election_and_commits_at_once() {
    let mut n = RaftNode::new(7, vec![], Config { election_timeout: 1, heartbeat_timeout: 1 });
    let actions = n.step(Event::Tick);
    assert!(n.is_leader());
    assert_eq!(n.leader_id(), Some(7));
    assert!(actions.is_empty());
    let actions = n.step(Event::Propose { command: vec![1, 2] });
    assert_eq!(n.commit_index(), 1);
    assert_eq!(n.last_applied(), 1);
    assert_eq!(actions, vec![Action::Apply { index: 1, command: vec![1, 2] }]);
}

#[test]
fn follower_ignores_proposals() {
    let mut n = node();
    let actions = n.step(Event::Propose { command: vec![1] });
    assert!(actions.is_empty());
    assert_eq!(n.log_last_index(), 0);
}

#[test]
fn stale_append_entries_is_rejected_with_current_term() {
    let mut n = node();
    n.step(Event::Message {
        from: 1,
        message: Message::RequestVote(RequestVote { term: 4, candidate_id: 1, last_log_index: 0, last_log_term: 0 }),
    });
    let actions = n.step(Event::Message {
        from: 2,
        message: Message::AppendEntries(AppendEntries {
            term: 3,
            leader_id: 2,
            prev_log_index: 0,
            prev_log_term: 0,
            entries: vec![],
            leader_commit: 0,
        }),
    });
    assert_eq!(
        actions,
        vec![Action::Send {
            to: 2,
            message: Message::AppendEntriesReply(AppendEntriesReply { term: 4, success: false, match_index: 0 }),
        }]
    );
}

#[test]
fn conflicting_entry_is_truncated_and_replaced() {
    let mut n = node();
    n.step(Event::Message {
        from: 1,
        message: Message::AppendEntries(AppendEntries {
            term: 1,
            leader_id: 1,
            prev_log_index: 0,
            prev_log_term: 0,
            entries: vec![
                LogEntry { term: 1, index: 1, command: vec![1] },
                LogEntry { term: 1, index: 2, command: vec![2] },
            ],
            leader_commit: 0,
        }),
    });
    assert_eq!(n.log_last_index(), 2);
    let actions = n.step(Event::Message {
        from: 2,
        message: Message::AppendEntries(AppendEntries {
            term: 2,
            leader_id: 2,
            prev_log_index: 1,
            prev_log_term: 1,
            entries: vec![LogEntry { term: 2, index: 2, command: vec![3] }],
            leader_commit: 2,
        }),
    });
    assert_eq!(n.log_last_index(), 2);
    assert_eq!(n.commit_index(), 2);
    assert!(actions.contains(&Action::Apply { index: 2, command: vec![3] }));
    assert!(actions.contains(&Action::Apply { index: 1, command: vec![1] }));
}

#[test]
fn failed_append_reply_backs_off_next_index() {
    let mut n = make_leader();
    n.step(Event::Propose { command: vec![7] });
    let actions = n.step(Event::Message {
        from: 2,
        message: Message::AppendEntriesReply(AppendEntriesReply { term: 1, success: false, match_index: 0 }),
    });
    match &actions[0] {
        Action::Send { to: 2, message: Message::AppendEntries(ae) } => {
            assert_eq!(ae.prev_log_index, 0);
            assert_eq!(ae.entries.len(), 1);
            assert_eq!(ae.leader_commit, 0);
        }
        _ => panic!("expected a retried append"),
    }
}

#[test]
fn message_term_reads_each_payload() {
    let rv = Message::RequestVote(RequestVote { term: 3, candidate_id: 1, last_log_index: 0, last_log_term: 0 });
    let ae = Message::AppendEntries(AppendEntries {
        term: 4,
        leader_id: 1,
        prev_log_index: 0,
        prev_log_term: 0,
        entries: vec![],
        leader_commit: 0,
    });
    assert_eq!(rv.term(), 3);
    assert_eq!(ae.term(), 4);
    assert_eq!(ae.clone(), ae);
}
