use raftcache::log::{Log, LogEntry};
use raftcache::types::{LogIndex, Term};

fn entry(term: Term, index: LogIndex) -> LogEntry {
    LogEntry { term, index, command: vec![] }
}

#[test]
fn empty_log_sentinels() {
    let log = Log::new();
    assert_eq!(log.last_index(), 0);
    assert_eq!(log.last_term(), 0);
    assert_eq!(log.term_at(0), Some(0));
    assert_eq!(log.term_at(1), None);
}

#[test]
fn append_and_term_at() {
    let mut log = Log::new();
    log.append(entry(1, 1));
    log.append(entry(2, 2));
    assert_eq!(log.last_index(), 2);
    assert_eq!(log.last_term(), 2);
    assert_eq!(log.term_at(1), Some(1));
    assert_eq!(log.term_at(2), Some(2));
}

#[test]
fn truncate_from_removes_tail() {
    let mut log = Log::new();
    log.append(entry(1, 1));
    log.append(entry(1, 2));
    log.append(entry(1, 3));
    log.truncate_from(2);
    assert_eq!(log.last_index(), 1);
    assert!(log.entry_at(2).is_none());
}

#[test]
fn entries_from_borrows_tail() {
    let mut log = Log::new();
    log.append(entry(1, 1));
    log.append(entry(1, 2));
    assert_eq!(log.entries_from(2).len(), 1);
    assert_eq!(log.entries_from(3).len(), 0);
}

#[test]
fn entry_at_reads_back_what_was_appended() {
    let mut log = Log::new();
    log.append(LogEntry { term: 3, index: 1, command: vec![4, 5] });
    let e = log.entry_at(1).expect("index 1 was appended");
    assert_eq!(e.term, 3);
    assert_eq!(e.command, vec![4, 5]);
    assert!(log.entry_at(0).is_none());
    assert_eq!(log.len(), 1);
    assert!(!log.is_empty());
}

#[test]
fn truncate_from_zero_clears_and_past_end_keeps() {
    let mut log = Log::new();
    log.append(entry(1, 1));
    log.append(entry(2, 2));
    log.truncate_from(9);
    assert_eq!(log.len(), 2);
    log.truncate_from(0);
    assert!(log.is_empty());
    assert_eq!(log.last_term(), 0);
}

#[test]
fn entries_from_zero_is_whole_log() {
    let mut log = Log::new();
    log.append(entry(1, 1));
    log.append(entry(1, 2));
    let all = log.entries_from(0);
    assert_eq!(all.len(), 2);
    assert_eq!(all[1].index, 2);
    assert_eq!(log.entries_from(1)[0].index, 1);
}

#[test]
fn cloned_log_has_same_entries() {
    let mut log = Log::new();
    log.append(LogEntry { term: 1, index: 1, command: vec![9] });
    let copy = log.clone();
    assert_eq!(copy.entry_at(1), log.entry_at(1));
    assert_eq!(copy.len(), 1);
}
