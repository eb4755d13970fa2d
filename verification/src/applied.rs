//! The commands a node has applied, keyed by log index and kept in index order.
use vstd::prelude::*;

use crate::assoc::{assoc_map, distinct_keys, has_key, lemma_assoc_insert, lemma_assoc_map, lemma_assoc_update};
use crate::log::copy_bytes;
use crate::types::LogIndex;

verus! {

/// The keys of `ps` strictly increase.
pub open spec fn increasing_indices<V>(ps: Seq<(LogIndex, V)>) -> bool {
    forall|i: int, j: int| 0 <= i < j < ps.len() ==> ps[i].0 < ps[j].0
}

/// The view of a list of index-command pairs.
pub open spec fn indexed_view(ps: Seq<(LogIndex, Vec<u8>)>) -> Seq<(LogIndex, Seq<u8>)> {
    ps.map_values(|p: (LogIndex, Vec<u8>)| (p.0, p.1@))
}

/// Two byte vectors hold the same bytes.
pub fn same_bytes(a: &Vec<u8>, b: &Vec<u8>) -> (r: bool)
    ensures
        r == (a@ == b@),
{
    if a.len() != b.len() {
        return false;
    }
    let mut i: usize = 0;
    while i < a.len()
        invariant
            i <= a@.len(),
            a@.len() == b@.len(),
            a@.subrange(0, i as int) == b@.subrange(0, i as int),
        decreases a@.len() - i,
    {
        if a[i] != b[i] {
            assert(a@[i as int] != b@[i as int]);
            return false;
        }
        assert(a@.subrange(0, i + 1) =~= a@.subrange(0, i as int).push(a@[i as int]));
        assert(b@.subrange(0, i + 1) =~= b@.subrange(0, i as int).push(b@[i as int]));
        i = i + 1;
    }
    assert(a@ =~= a@.subrange(0, i as int));
    assert(b@ =~= b@.subrange(0, i as int));
    true
}

/// Commands by log index, as a list sorted by index.
#[derive(Debug)]
pub struct AppliedCommands {
    entries: Vec<(LogIndex, Vec<u8>)>,
}

impl View for AppliedCommands {
    type V = Seq<(LogIndex, Seq<u8>)>;

    closed spec fn view(&self) -> Seq<(LogIndex, Seq<u8>)> {
        indexed_view(self.entries@)
    }
}

impl AppliedCommands {
    /// The commands as a map from index.
    pub open spec fn map(&self) -> Map<LogIndex, Seq<u8>> {
        assoc_map(self@)
    }

    /// Indices are listed once each, in increasing order.
    pub open spec fn wf(&self) -> bool {
        increasing_indices(self@)
    }

    pub fn new() -> (r: Self)
        ensures
            r@ == Seq::<(LogIndex, Seq<u8>)>::empty(),
            r.wf(),
    {
        let r = AppliedCommands { entries: Vec::new() };
        assert(r@ =~= Seq::<(LogIndex, Seq<u8>)>::empty());
        r
    }

    /// Records `command` at `index`, replacing what was there.
    pub fn insert(&mut self, index: LogIndex, command: Vec<u8>)
        requires
            old(self).wf(),
        ensures
            final(self).wf(),
            final(self).map() == old(self).map().insert(index, command@),
    {
        let ghost ps = self@;
        let mut p: usize = 0;
        while p < self.entries.len() && self.entries[p].0 < index
            invariant
                p <= ps.len(),
                self@ == ps,
                forall|i: int| 0 <= i < p ==> ps[i].0 < index,
            decreases ps.len() - p,
        {
            p = p + 1;
        }
        assert(distinct_keys(ps));
        if p < self.entries.len() && self.entries[p].0 == index {
            let ghost cmd = command@;
            self.entries.set(p, (index, command));
            proof {
                assert(self@ =~= ps.update(p as int, (index, cmd)));
                lemma_assoc_update(ps, p as int, cmd);
            }
        } else {
            let ghost cmd = command@;
            self.entries.insert(p, (index, command));
            proof {
                assert(self@ =~= ps.insert(p as int, (index, cmd)));
                assert(!has_key(ps, index)) by {
                    if has_key(ps, index) {
                        let i = choose|i: int| 0 <= i < ps.len() && ps[i].0 == index;
                        if i >= p {
                            assert(ps[p as int].0 <= ps[i].0);
                        }
                    }
                }
                lemma_assoc_insert(ps, p as int, index, cmd);
            }
        }
    }

    /// The command recorded at `index`, if any.
    pub fn get(&self, index: LogIndex) -> (r: Option<&Vec<u8>>)
        requires
            self.wf(),
        ensures
            match r {
                Some(c) => self.map().contains_key(index) && self.map()[index] == c@,
                None => !self.map().contains_key(index),
            },
    {
        proof {
            lemma_assoc_map(self@);
        }
        let mut i: usize = 0;
        while i < self.entries.len()
            invariant
                i <= self@.len(),
                self.wf(),
                forall|j: int| 0 <= j < i ==> self@[j].0 != index,
            decreases self@.len() - i,
        {
            if self.entries[i].0 == index {
                assert(self@[i as int].0 == index);
                assert(self@[i as int] == (self.entries@[i as int].0, self.entries@[i as int].1@));
                proof {
                    lemma_assoc_map(self@);
                }
                assert(self.map().contains_key(self@[i as int].0));
                return Some(&self.entries[i].1);
            }
            i = i + 1;
        }
        None
    }

    /// A copy of every (index, command) pair, in increasing index order.
    pub fn to_vec(&self) -> (r: Vec<(LogIndex, Vec<u8>)>)
        ensures
            indexed_view(r@) == self@,
    {
        let mut r: Vec<(LogIndex, Vec<u8>)> = Vec::new();
        let mut i: usize = 0;
        while i < self.entries.len()
            invariant
                i <= self@.len(),
                indexed_view(r@) == self@.subrange(0, i as int),
            decreases self@.len() - i,
        {
            let c = copy_bytes(&self.entries[i].1);
            let ghost r0 = r@;
            assert(self@[i as int] == (self.entries@[i as int].0, self.entries@[i as int].1@));
            r.push((self.entries[i].0, c));
            assert(indexed_view(r@) =~= indexed_view(r0).push(self@[i as int]));
            assert(self@.subrange(0, i + 1) =~= self@.subrange(0, i as int).push(self@[i as int]));
            i = i + 1;
            assert(indexed_view(r@) =~= self@.subrange(0, i as int));
        }
        assert(self@.subrange(0, i as int) =~= self@);
        r
    }

    pub fn len(&self) -> (r: usize)
        ensures
            r == self@.len(),
    {
        self.entries.len()
    }

    /// The pair at position `i` of the index-ordered list.
    pub fn entry(&self, i: usize) -> (r: (LogIndex, &Vec<u8>))
        requires
            i < self@.len(),
        ensures
            r.0 == self@[i as int].0,
            r.1@ == self@[i as int].1,
    {
        assert(self@[i as int] == (self.entries@[i as int].0, self.entries@[i as int].1@));
        (self.entries[i].0, &self.entries[i].1)
    }
}

} // verus!
