//! The replicated log. Entries are 1-indexed; index 0 is a sentinel.
use vstd::prelude::*;

use crate::types::{LogIndex, Term};

verus! {

/// One log entry: a term-stamped, opaque application command.
#[derive(Debug, PartialEq, Eq)]
pub struct LogEntry {
    pub term: Term,
    pub index: LogIndex,
    pub command: Vec<u8>,
}

/// The mathematical content of a [`LogEntry`].
pub struct LogEntryView {
    pub term: Term,
    pub index: LogIndex,
    pub command: Seq<u8>,
}

impl View for LogEntry {
    type V = LogEntryView;

    open spec fn view(&self) -> LogEntryView {
        LogEntryView { term: self.term, index: self.index, command: self.command@ }
    }
}

/// Copies a byte vector; the copy holds the same bytes.
pub fn copy_bytes(bytes: &Vec<u8>) -> (out: Vec<u8>)
    ensures
        out@ == bytes@,
{
    let out = bytes.clone();
    assert(out@ =~= bytes@);
    out
}

impl Clone for LogEntry {
    fn clone(&self) -> (out: Self)
        ensures
            out@ == self@,
    {
        LogEntry { term: self.term, index: self.index, command: copy_bytes(&self.command) }
    }
}

/// The view of a sequence of entries.
pub open spec fn entries_view(entries: Seq<LogEntry>) -> Seq<LogEntryView> {
    entries.map_values(|e: LogEntry| e@)
}

/// Copies a slice of entries; the copy holds the same entries in the same order.
pub fn copy_entries(entries: &[LogEntry]) -> (out: Vec<LogEntry>)
    ensures
        entries_view(out@) == entries_view(entries@),
{
    let mut out: Vec<LogEntry> = Vec::new();
    let mut i: usize = 0;
    while i < entries.len()
        invariant
            i <= entries@.len(),
            entries_view(out@) == entries_view(entries@.subrange(0, i as int)),
        decreases entries@.len() - i,
    {
        let e = entries[i].clone();
        assert(e@ == entries@[i as int]@);
        let ghost prev = out@;
        out.push(e);
        proof {
            assert(entries_view(out@) =~= entries_view(prev).push(e@));
            assert(entries@.subrange(0, i + 1) =~= entries@.subrange(0, i as int).push(
                entries@[i as int],
            ));
        }
        i = i + 1;
        assert(entries_view(out@) =~= entries_view(entries@.subrange(0, i as int)));
    }
    assert(entries@.subrange(0, i as int) =~= entries@);
    out
}

/// Index of the last entry of `log`, or 0 if it is empty.
pub open spec fn last_index_of(log: Seq<LogEntryView>) -> LogIndex {
    if log.len() == 0 { 0 } else { log.last().index }
}

/// Term of the last entry of `log`, or 0 if it is empty.
pub open spec fn last_term_of(log: Seq<LogEntryView>) -> Term {
    if log.len() == 0 { 0 } else { log.last().term }
}

/// The entry stored at 1-based position `index` (none at the sentinel 0).
pub open spec fn entry_at_of(log: Seq<LogEntryView>, index: LogIndex) -> Option<LogEntryView> {
    if index == 0 || index > log.len() { None } else { Some(log[index - 1]) }
}

/// The term at 1-based position `index`: 0 at the sentinel, none past the end.
pub open spec fn term_at_of(log: Seq<LogEntryView>, index: LogIndex) -> Option<Term> {
    if index == 0 {
        Some(0)
    } else if index > log.len() {
        None
    } else {
        Some(log[index - 1].term)
    }
}

/// `log` with every position `>= index` removed.
pub open spec fn truncated_from(log: Seq<LogEntryView>, index: LogIndex) -> Seq<LogEntryView> {
    if index == 0 {
        Seq::empty()
    } else if index - 1 <= log.len() {
        log.subrange(0, index - 1)
    } else {
        log
    }
}

/// The positions `>= index` of `log`.
pub open spec fn suffix_from(log: Seq<LogEntryView>, index: LogIndex) -> Seq<LogEntryView> {
    if index == 0 {
        log
    } else if index - 1 >= log.len() {
        Seq::empty()
    } else {
        log.subrange(index - 1, log.len() as int)
    }
}

/// The replicated log: a sequence of entries whose positions start at 1.
#[derive(Debug)]
pub struct Log {
    entries: Vec<LogEntry>,
}

impl View for Log {
    type V = Seq<LogEntryView>;

    closed spec fn view(&self) -> Seq<LogEntryView> {
        entries_view(self.entries@)
    }
}

impl Clone for Log {
    fn clone(&self) -> (out: Self)
        ensures
            out@ == self@,
    {
        Log { entries: copy_entries(self.entries.as_slice()) }
    }
}

impl Default for Log {
    fn default() -> (log: Self)
        ensures
            log@ == Seq::<LogEntryView>::empty(),
    {
        Log::new()
    }
}

impl Log {
    pub fn new() -> (log: Self)
        ensures
            log@ == Seq::<LogEntryView>::empty(),
    {
        let log = Log { entries: Vec::new() };
        assert(log@ =~= Seq::<LogEntryView>::empty());
        log
    }

    /// The index of the last entry, or 0 if empty.
    pub fn last_index(&self) -> (r: LogIndex)
        ensures
            r == last_index_of(self@),
    {
        if self.entries.len() == 0 {
            0
        } else {
            self.entries[self.entries.len() - 1].index
        }
    }

    /// The term of the last entry, or 0 if empty.
    pub fn last_term(&self) -> (r: Term)
        ensures
            r == last_term_of(self@),
    {
        if self.entries.len() == 0 {
            0
        } else {
            self.entries[self.entries.len() - 1].term
        }
    }

    /// The term of the entry at `index`. Index 0 is the sentinel (term 0).
    /// Returns `None` if `index` is beyond the log.
    pub fn term_at(&self, index: LogIndex) -> (r: Option<Term>)
        ensures
            r == term_at_of(self@, index),
    {
        if index == 0 {
            return Some(0);
        }
        if index - 1 < self.entries.len() as u64 {
            Some(self.entries[(index - 1) as usize].term)
        } else {
            None
        }
    }

    /// The entry at `index`, if present (index 0 has no entry).
    pub fn entry_at(&self, index: LogIndex) -> (r: Option<&LogEntry>)
        ensures
            match r {
                Some(e) => entry_at_of(self@, index) == Some(e@),
                None => entry_at_of(self@, index) is None,
            },
    {
        if index == 0 {
            return None;
        }
        if index - 1 < self.entries.len() as u64 {
            Some(&self.entries[(index - 1) as usize])
        } else {
            None
        }
    }

    /// Appends an entry. Callers maintain contiguity (index == last_index + 1).
    pub fn append(&mut self, entry: LogEntry)
        ensures
            final(self)@ == old(self)@.push(entry@),
    {
        self.entries.push(entry);
        assert(entries_view(self.entries@) =~= entries_view(old(self).entries@).push(entry@));
    }

    /// Removes every entry with index >= `index`.
    pub fn truncate_from(&mut self, index: LogIndex)
        ensures
            final(self)@ == truncated_from(old(self)@, index),
    {
        if index == 0 {
            self.entries.clear();
            assert(entries_view(self.entries@) =~= Seq::<LogEntryView>::empty());
        } else if index - 1 <= self.entries.len() as u64 {
            self.entries.truncate((index - 1) as usize);
            assert(entries_view(self.entries@) =~= entries_view(old(self).entries@).subrange(
                0,
                index - 1,
            ));
        }
    }

    /// A borrowed slice of all entries with index >= `index`.
    pub fn entries_from(&self, index: LogIndex) -> (r: &[LogEntry])
        ensures
            entries_view(r@) == suffix_from(self@, index),
    {
        if index == 0 {
            return self.entries.as_slice();
        }
        if index - 1 >= self.entries.len() as u64 {
            let empty: &[LogEntry] = self.entries.as_slice().split_at(0).0;
            assert(entries_view(empty@) =~= Seq::<LogEntryView>::empty());
            empty
        } else {
            let start = (index - 1) as usize;
            let tail: &[LogEntry] = self.entries.as_slice().split_at(start).1;
            assert(entries_view(tail@) =~= entries_view(self.entries@).subrange(
                start as int,
                self.entries@.len() as int,
            ));
            tail
        }
    }

    pub fn len(&self) -> (r: usize)
        ensures
            r == self@.len(),
    {
        self.entries.len()
    }

    pub fn is_empty(&self) -> (r: bool)
        ensures
            r == (self@.len() == 0),
    {
        self.entries.len() == 0
    }
}

/// Reading back a write: after appending `e`, position `len + 1` holds `e`,
/// its term is read there, `e` is the last entry, and the positions before it
/// read as before.
pub proof fn lemma_append_then_read(log: Seq<LogEntryView>, e: LogEntryView)
    requires
        log.len() < u64::MAX,
    ensures
        entry_at_of(log.push(e), (log.len() + 1) as u64) == Some(e),
        term_at_of(log.push(e), (log.len() + 1) as u64) == Some(e.term),
        last_index_of(log.push(e)) == e.index,
        last_term_of(log.push(e)) == e.term,
        forall|i: LogIndex| i <= log.len() ==> #[trigger] entry_at_of(log.push(e), i) == entry_at_of(log, i),
{
    assert forall|i: LogIndex| i <= log.len() implies #[trigger] entry_at_of(log.push(e), i) == entry_at_of(log, i) by {
        if i > 0 {
            assert(log.push(e)[i - 1] == log[i - 1]);
        }
    }
}

/// Truncating at `index` keeps exactly the positions below it.
pub proof fn lemma_truncate_keeps_prefix(log: Seq<LogEntryView>, index: LogIndex)
    ensures
        forall|i: LogIndex| i < index ==> #[trigger] entry_at_of(truncated_from(log, index), i) == entry_at_of(log, i),
        forall|i: LogIndex| i >= index ==> #[trigger] entry_at_of(truncated_from(log, index), i) is None,
{
    let t = truncated_from(log, index);
    assert forall|i: LogIndex| i < index implies #[trigger] entry_at_of(t, i) == entry_at_of(log, i) by {
        if i > 0 && index - 1 <= log.len() && i <= t.len() {
            assert(t[i - 1] == log[i - 1]);
        }
    }
}

} // verus!
