//! The key-value store that applies committed commands deterministically.
use vstd::prelude::*;

use crate::assoc::{
    assoc_map, distinct_keys, has_key, lemma_assoc_insert, lemma_assoc_map, lemma_assoc_remove,
    lemma_assoc_update,
};
use crate::command::{Command, CommandView};
use crate::keys::{compare_keys, key_lt, lemma_key_order, KeyOrder};

verus! {

/// The store as plain values: its map and the index of the last command applied.
pub struct KvView {
    pub map: Map<Seq<char>, Seq<char>>,
    pub applied_index: u64,
}

/// What applying `command` stamped with log index `index` does.
pub open spec fn apply_of(s: KvView, index: u64, command: CommandView) -> KvView {
    match command {
        CommandView::Put { key, value } => KvView { map: s.map.insert(key, value), applied_index: index },
        CommandView::Delete { key } => KvView { map: s.map.remove(key), applied_index: index },
    }
}

/// Applies `commands`, each stamped with its index, in order.
pub open spec fn replay_of(s: KvView, commands: Seq<(u64, CommandView)>) -> KvView
    decreases commands.len(),
{
    if commands.len() == 0 {
        s
    } else {
        apply_of(replay_of(s, commands.drop_last()), commands.last().0, commands.last().1)
    }
}

/// The view of a list of key-value pairs.
pub open spec fn pairs_view(ps: Seq<(String, String)>) -> Seq<(Seq<char>, Seq<char>)> {
    ps.map_values(|p: (String, String)| (p.0@, p.1@))
}

/// The keys of `ps` strictly increase in the key order.
pub open spec fn keys_increasing(ps: Seq<(Seq<char>, Seq<char>)>) -> bool {
    forall|i: int, j: int| 0 <= i < j < ps.len() ==> key_lt(#[trigger] ps[i].0, #[trigger] ps[j].0)
}

/// Increasing keys are distinct keys.
pub proof fn lemma_increasing_distinct(ps: Seq<(Seq<char>, Seq<char>)>)
    requires
        keys_increasing(ps),
    ensures
        distinct_keys(ps),
{
    lemma_key_order();
    assert forall|i: int, j: int| 0 <= i < j < ps.len() implies ps[i].0 != ps[j].0 by {
        assert(key_lt(ps[i].0, ps[j].0));
    }
}

/// A listing with increasing keys is determined by the map it lists.
pub proof fn lemma_listing_determined(ps: Seq<(Seq<char>, Seq<char>)>, qs: Seq<(Seq<char>, Seq<char>)>)
    requires
        keys_increasing(ps),
        keys_increasing(qs),
        assoc_map(ps) == assoc_map(qs),
    ensures
        ps == qs,
    decreases ps.len(),
{
    lemma_key_order();
    lemma_increasing_distinct(ps);
    lemma_increasing_distinct(qs);
    lemma_assoc_map(ps);
    lemma_assoc_map(qs);
    if ps.len() == 0 {
        assert(qs.len() == 0);
        assert(ps =~= qs);
    } else {
        assert(qs.len() > 0);
        let k = ps[0].0;
        assert(assoc_map(ps).contains_key(ps[0].0));
        assert(assoc_map(qs).contains_key(qs[0].0));
        if k != qs[0].0 {
            let j = choose|j: int| 0 <= j < qs.len() && qs[j].0 == k;
            let i = choose|i: int| 0 <= i < ps.len() && ps[i].0 == qs[0].0;
            assert(key_lt(qs[0].0, qs[j].0));
            assert(key_lt(ps[0].0, ps[i].0));
        }
        assert(ps[0].1 == qs[0].1);
        lemma_assoc_remove(ps, 0);
        lemma_assoc_remove(qs, 0);
        let pt = ps.remove(0);
        let qt = qs.remove(0);
        assert(keys_increasing(pt)) by {
            assert forall|i: int, j: int| 0 <= i < j < pt.len() implies key_lt(#[trigger] pt[i].0, #[trigger] pt[j].0) by {
                assert(pt[i] == ps[i + 1] && pt[j] == ps[j + 1]);
            }
        }
        assert(keys_increasing(qt)) by {
            assert forall|i: int, j: int| 0 <= i < j < qt.len() implies key_lt(#[trigger] qt[i].0, #[trigger] qt[j].0) by {
                assert(qt[i] == qs[i + 1] && qt[j] == qs[j + 1]);
            }
        }
        lemma_listing_determined(pt, qt);
        assert(ps =~= seq![ps[0]] + pt);
        assert(qs =~= seq![qs[0]] + qt);
    }
}

/// An in-memory key-value store. Applying the same sequence of committed
/// commands always yields the same state — the property replication relies on.
#[derive(Debug, Clone, PartialEq, Eq)]
pub struct KvStore {
    /// The pairs, in increasing key order.
    entries: Vec<(String, String)>,
    applied_index: u64,
}

impl View for KvStore {
    type V = KvView;

    closed spec fn view(&self) -> KvView {
        KvView { map: assoc_map(pairs_view(self.entries@)), applied_index: self.applied_index }
    }
}

impl Default for KvStore {
    fn default() -> (s: Self)
        ensures
            s.wf(),
            s@ == (KvView { map: Map::empty(), applied_index: 0 }),
    {
        KvStore::new()
    }
}

impl KvStore {
    /// The pairs the store lists, in increasing key order.
    pub closed spec fn listing(&self) -> Seq<(Seq<char>, Seq<char>)> {
        pairs_view(self.entries@)
    }

    /// The store lists its pairs in increasing key order.
    pub closed spec fn wf(&self) -> bool {
        keys_increasing(self.listing())
    }

    pub fn new() -> (s: Self)
        ensures
            s.wf(),
            s@ == (KvView { map: Map::empty(), applied_index: 0 }),
    {
        let s = KvStore { entries: Vec::new(), applied_index: 0 };
        assert(pairs_view(s.entries@) =~= Seq::<(Seq<char>, Seq<char>)>::empty());
        assert(assoc_map(pairs_view(s.entries@)) =~= Map::<Seq<char>, Seq<char>>::empty());
        s
    }

    /// The first position whose key does not come before `key`, and whether
    /// that position holds `key`.
    fn find(&self, key: &str) -> (r: (usize, bool))
        requires
            self.wf(),
        ensures
            r.0 <= self.listing().len(),
            forall|i: int| 0 <= i < r.0 ==> key_lt(#[trigger] self.listing()[i].0, key@),
            r.0 < self.listing().len() ==> !key_lt(self.listing()[r.0 as int].0, key@),
            r.1 == (r.0 < self.listing().len() && self.listing()[r.0 as int].0 == key@),
    {
        let ghost ps = self.listing();
        let mut p: usize = 0;
        while p < self.entries.len()
            invariant
                ps == self.listing(),
                p <= ps.len(),
                forall|i: int| 0 <= i < p ==> key_lt(#[trigger] ps[i].0, key@),
            decreases ps.len() - p,
        {
            assert(ps[p as int].0 == self.entries@[p as int].0@);
            match compare_keys(self.entries[p].0.as_str(), key) {
                KeyOrder::Before => {
                    p = p + 1;
                },
                KeyOrder::Same => {
                    return (p, true);
                },
                KeyOrder::After => {
                    proof {
                        lemma_key_order();
                    }
                    return (p, false);
                },
            }
        }
        (p, false)
    }

    /// Applies a committed command stamped with its log `index`.
    pub fn apply(&mut self, index: u64, command: &Command)
        requires
            old(self).wf(),
        ensures
            final(self).wf(),
            final(self)@ == apply_of(old(self)@, index, command@),
    {
        let ghost ps = self.listing();
        proof {
            lemma_key_order();
            lemma_increasing_distinct(ps);
        }
        match command {
            Command::Put { key, value } => {
                let (p, found) = self.find(key.as_str());
                assert(forall|i: int| 0 <= i < p ==> key_lt(#[trigger] ps[i].0, key@));
                assert(p < ps.len() && !found ==> key_lt(key@, ps[p as int].0));
                let k = key.clone();
                let v = value.clone();
                let ghost pair = (k@, v@);
                if found {
                    self.entries.set(p, (k, v));
                    proof {
                        assert(self.listing() =~= ps.update(p as int, (ps[p as int].0, v@)));
                        lemma_assoc_update(ps, p as int, v@);
                        assert forall|i: int, j: int|
                            0 <= i < j < self.listing().len() implies key_lt(
                            #[trigger] self.listing()[i].0,
                            #[trigger] self.listing()[j].0,
                        ) by {
                            assert(self.listing()[i].0 == ps[i].0 && self.listing()[j].0 == ps[j].0);
                        }
                    }
                } else {
                    self.entries.insert(p, (k, v));
                    proof {
                        assert(self.listing() =~= ps.insert(p as int, pair));
                        assert(!has_key(ps, key@)) by {
                            if has_key(ps, key@) {
                                let i = choose|i: int| 0 <= i < ps.len() && ps[i].0 == key@;
                                if i >= p {
                                    if i > p {
                                        assert(key_lt(ps[p as int].0, ps[i].0));
                                    }
                                }
                            }
                        }
                        lemma_assoc_insert(ps, p as int, key@, value@);
                        let qs = self.listing();
                        assert forall|i: int, j: int| 0 <= i < j < qs.len() implies key_lt(
                            #[trigger] qs[i].0,
                            #[trigger] qs[j].0,
                        ) by {
                            if j < p {
                                assert(qs[i] == ps[i] && qs[j] == ps[j]);
                            } else if j == p {
                                assert(qs[i] == ps[i]);
                                assert(qs[j].0 == key@);
                            } else if i == p {
                                assert(qs[i].0 == key@);
                                assert(qs[j] == ps[j - 1]);
                                if j - 1 > p {
                                    assert(key_lt(ps[p as int].0, ps[j - 1].0));
                                }
                            } else if i < p {
                                assert(qs[i] == ps[i] && qs[j] == ps[j - 1]);
                                assert(key_lt(ps[i].0, ps[j - 1].0));
                            } else {
                                assert(qs[i] == ps[i - 1] && qs[j] == ps[j - 1]);
                            }
                        }
                    }
                }
            },
            Command::Delete { key } => {
                let (p, found) = self.find(key.as_str());
                if found {
                    self.entries.remove(p);
                    proof {
                        assert(self.listing() =~= ps.remove(p as int));
                        lemma_assoc_remove(ps, p as int);
                        let qs = self.listing();
                        assert forall|i: int, j: int| 0 <= i < j < qs.len() implies key_lt(
                            #[trigger] qs[i].0,
                            #[trigger] qs[j].0,
                        ) by {
                            let a = if i < p { i } else { i + 1 };
                            let b = if j < p { j } else { j + 1 };
                            assert(qs[i] == ps[a] && qs[j] == ps[b]);
                        }
                    }
                } else {
                    proof {
                        lemma_assoc_map(ps);
                        assert(!assoc_map(ps).contains_key(key@)) by {
                            if has_key(ps, key@) {
                                let i = choose|i: int| 0 <= i < ps.len() && ps[i].0 == key@;
                                if i > p {
                                    assert(key_lt(ps[p as int].0, ps[i].0));
                                }
                            }
                        }
                        assert(assoc_map(ps).remove(key@) =~= assoc_map(ps));
                    }
                }
            },
        }
        self.applied_index = index;
    }

    /// The value stored under `key`, if any.
    pub fn get(&self, key: &str) -> (r: Option<&String>)
        requires
            self.wf(),
        ensures
            match r {
                Some(v) => self@.map.contains_key(key@) && self@.map[key@] == v@,
                None => !self@.map.contains_key(key@),
            },
    {
        let ghost ps = self.listing();
        proof {
            lemma_increasing_distinct(ps);
            lemma_assoc_map(ps);
        }
        let (p, found) = self.find(key);
        if found {
            assert(ps[p as int] == (self.entries@[p as int].0@, self.entries@[p as int].1@));
            assert(assoc_map(ps).contains_key(ps[p as int].0));
            Some(&self.entries[p].1)
        } else {
            proof {
                lemma_key_order();
                if has_key(ps, key@) {
                    let i = choose|i: int| 0 <= i < ps.len() && ps[i].0 == key@;
                    if i > p {
                        assert(key_lt(ps[p as int].0, ps[i].0));
                    }
                }
            }
            None
        }
    }

    /// The number of keys stored.
    pub fn len(&self) -> (r: usize)
        requires
            self.wf(),
        ensures
            r == self@.map.len(),
    {
        proof {
            lemma_increasing_distinct(self.listing());
            lemma_assoc_map(self.listing());
        }
        self.entries.len()
    }

    pub fn is_empty(&self) -> (r: bool)
        requires
            self.wf(),
        ensures
            r == (self@.map.len() == 0),
    {
        proof {
            lemma_increasing_distinct(self.listing());
            lemma_assoc_map(self.listing());
        }
        self.entries.len() == 0
    }

    /// The index of the last command applied (0 before any).
    pub fn applied_index(&self) -> (r: u64)
        ensures
            r == self@.applied_index,
    {
        self.applied_index
    }

    /// A sorted snapshot of the key-value pairs (for display).
    pub fn pairs(&self) -> (r: Vec<(String, String)>)
        requires
            self.wf(),
        ensures
            keys_increasing(pairs_view(r@)),
            assoc_map(pairs_view(r@)) == self@.map,
    {
        let mut r: Vec<(String, String)> = Vec::new();
        let mut i: usize = 0;
        while i < self.entries.len()
            invariant
                i <= self.entries@.len(),
                pairs_view(r@) == pairs_view(self.entries@).subrange(0, i as int),
            decreases self.entries@.len() - i,
        {
            let k = self.entries[i].0.clone();
            let v = self.entries[i].1.clone();
            let ghost r0 = r@;
            r.push((k, v));
            assert(pairs_view(r@) =~= pairs_view(r0).push((k@, v@)));
            assert(pairs_view(self.entries@).subrange(0, i + 1) =~= pairs_view(self.entries@).subrange(
                0,
                i as int,
            ).push(pairs_view(self.entries@)[i as int]));
            i = i + 1;
        }
        assert(pairs_view(self.entries@).subrange(0, i as int) =~= pairs_view(self.entries@));
        r
    }

    /// Applies `commands`, each stamped with its log index, in order.
    pub fn apply_all(&mut self, commands: &Vec<(u64, Command)>)
        requires
            old(self).wf(),
        ensures
            final(self).wf(),
            final(self)@ == replay_of(
                old(self)@,
                commands@.map_values(|c: (u64, Command)| (c.0, c.1@)),
            ),
    {
        let ghost cs = commands@.map_values(|c: (u64, Command)| (c.0, c.1@));
        let ghost s0 = self@;
        let mut i: usize = 0;
        while i < commands.len()
            invariant
                i <= commands@.len(),
                cs == commands@.map_values(|c: (u64, Command)| (c.0, c.1@)),
                self.wf(),
                self@ == replay_of(s0, cs.subrange(0, i as int)),
            decreases commands@.len() - i,
        {
            let (index, command) = &commands[i];
            self.apply(*index, command);
            assert(cs.subrange(0, i + 1).drop_last() =~= cs.subrange(0, i as int));
            i = i + 1;
        }
        assert(cs.subrange(0, i as int) =~= cs);
    }
}

/// Rebuilds a store from committed commands, each stamped with its log index,
/// applied in order to an empty store.
pub fn rebuild_store(commands: &Vec<(u64, Command)>) -> (s: KvStore)
    ensures
        s.wf(),
        s@ == replay_of(
            KvView { map: Map::empty(), applied_index: 0 },
            commands@.map_values(|c: (u64, Command)| (c.0, c.1@)),
        ),
{
    let mut s = KvStore::new();
    s.apply_all(commands);
    s
}

/// Stores that hold the same map list the same pairs: a store's listing is
/// determined by its contents.
pub proof fn lemma_same_map_same_listing(a: &KvStore, b: &KvStore)
    requires
        a.wf(),
        b.wf(),
        a@.map == b@.map,
    ensures
        a.listing() == b.listing(),
{
    lemma_listing_determined(a.listing(), b.listing());
}

/// Applying the same commands to equal stores gives equal stores, listing
/// the same pairs.
pub proof fn lemma_replay_deterministic(a: &KvStore, b: &KvStore, commands: Seq<(u64, CommandView)>)
    requires
        a@ == b@,
    ensures
        replay_of(a@, commands) == replay_of(b@, commands),
{
}

/// After a put of `value` under `key`, reading `key` gives `value` and every
/// other key reads as before.
pub proof fn lemma_put_then_get(s: KvView, index: u64, key: Seq<char>, value: Seq<char>, other: Seq<char>)
    ensures
        apply_of(s, index, CommandView::Put { key, value }).map.contains_key(key),
        apply_of(s, index, CommandView::Put { key, value }).map[key] == value,
        other != key ==> apply_of(s, index, CommandView::Put { key, value }).map.contains_key(other)
            == s.map.contains_key(other),
        other != key && s.map.contains_key(other) ==> apply_of(
            s,
            index,
            CommandView::Put { key, value },
        ).map[other] == s.map[other],
        apply_of(s, index, CommandView::Put { key, value }).applied_index == index,
{
}

/// After deleting `key`, reading `key` gives nothing and every other key
/// reads as before.
pub proof fn lemma_delete_then_get(s: KvView, index: u64, key: Seq<char>, other: Seq<char>)
    ensures
        !apply_of(s, index, CommandView::Delete { key }).map.contains_key(key),
        other != key ==> apply_of(s, index, CommandView::Delete { key }).map.contains_key(other)
            == s.map.contains_key(other),
        other != key && s.map.contains_key(other) ==> apply_of(
            s,
            index,
            CommandView::Delete { key },
        ).map[other] == s.map[other],
        apply_of(s, index, CommandView::Delete { key }).applied_index == index,
{
}

} // verus!
