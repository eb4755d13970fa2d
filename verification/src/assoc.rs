//! Association lists: sequences of key-value pairs with distinct keys, read as
//! finite maps. The sorted stores of the crate keep their contents this way.
use vstd::prelude::*;

verus! {

/// No key occurs twice in `ps`.
pub open spec fn distinct_keys<K, V>(ps: Seq<(K, V)>) -> bool {
    forall|i: int, j: int| 0 <= i < j < ps.len() ==> ps[i].0 != ps[j].0
}

/// The map that `ps` lists (a later pair wins over an earlier one).
pub open spec fn assoc_map<K, V>(ps: Seq<(K, V)>) -> Map<K, V>
    decreases ps.len(),
{
    if ps.len() == 0 {
        Map::empty()
    } else {
        assoc_map(ps.drop_last()).insert(ps.last().0, ps.last().1)
    }
}

/// `ps` mentions key `k`.
pub open spec fn has_key<K, V>(ps: Seq<(K, V)>, k: K) -> bool {
    exists|i: int| 0 <= i < ps.len() && ps[i].0 == k
}

/// The map of a list with distinct keys holds exactly its pairs, and has as
/// many keys as the list has pairs.
pub proof fn lemma_assoc_map<K, V>(ps: Seq<(K, V)>)
    requires
        distinct_keys(ps),
    ensures
        forall|i: int|
            0 <= i < ps.len() ==> #[trigger] assoc_map(ps).contains_key(ps[i].0) && assoc_map(
                ps,
            )[ps[i].0] == ps[i].1,
        forall|k: K| #[trigger] assoc_map(ps).contains_key(k) <==> has_key(ps, k),
        assoc_map(ps).dom().finite(),
        assoc_map(ps).len() == ps.len(),
    decreases ps.len(),
{
    if ps.len() > 0 {
        let init = ps.drop_last();
        assert(distinct_keys(init));
        lemma_assoc_map(init);
        let m0 = assoc_map(init);
        assert(!m0.contains_key(ps.last().0)) by {
            if m0.contains_key(ps.last().0) {
                let i = choose|i: int| 0 <= i < init.len() && init[i].0 == ps.last().0;
                assert(ps[i].0 == ps[ps.len() - 1].0);
            }
        }
        assert forall|k: K| #[trigger] assoc_map(ps).contains_key(k) <==> has_key(ps, k) by {
            if has_key(ps, k) {
                let i = choose|i: int| 0 <= i < ps.len() && ps[i].0 == k;
                if i < ps.len() - 1 {
                    assert(init[i].0 == k);
                }
            }
            if m0.contains_key(k) {
                let i = choose|i: int| 0 <= i < init.len() && init[i].0 == k;
                assert(ps[i].0 == k);
            }
        }
        assert forall|i: int|
            0 <= i < ps.len() implies #[trigger] assoc_map(ps).contains_key(ps[i].0) && assoc_map(
            ps,
        )[ps[i].0] == ps[i].1 by {
            if i < ps.len() - 1 {
                assert(init[i] == ps[i]);
                assert(ps[i].0 != ps[ps.len() - 1].0);
            }
        }
    } else {
        assert(assoc_map(ps) =~= Map::<K, V>::empty());
    }
}

/// Two lists with distinct keys and the same pairs by key list the same map.
pub proof fn lemma_assoc_map_ext<K, V>(ps: Seq<(K, V)>, qs: Seq<(K, V)>)
    requires
        distinct_keys(ps),
        distinct_keys(qs),
        forall|k: K| has_key(ps, k) <==> has_key(qs, k),
        forall|i: int, j: int|
            0 <= i < ps.len() && 0 <= j < qs.len() && ps[i].0 == qs[j].0 ==> ps[i].1 == qs[j].1,
    ensures
        assoc_map(ps) == assoc_map(qs),
{
    lemma_assoc_map(ps);
    lemma_assoc_map(qs);
    assert forall|k: K| assoc_map(ps).contains_key(k) implies assoc_map(ps)[k] == assoc_map(
        qs,
    )[k] by {
        let i = choose|i: int| 0 <= i < ps.len() && ps[i].0 == k;
        let j = choose|j: int| 0 <= j < qs.len() && qs[j].0 == k;
        assert(assoc_map(ps).contains_key(ps[i].0));
        assert(assoc_map(qs).contains_key(qs[j].0));
    }
    assert(assoc_map(ps) =~= assoc_map(qs));
}

/// Inserting a pair with a new key at any position adds it to the map.
pub proof fn lemma_assoc_insert<K, V>(ps: Seq<(K, V)>, p: int, k: K, v: V)
    requires
        distinct_keys(ps),
        !has_key(ps, k),
        0 <= p <= ps.len(),
    ensures
        distinct_keys(ps.insert(p, (k, v))),
        assoc_map(ps.insert(p, (k, v))) == assoc_map(ps).insert(k, v),
{
    let qs = ps.insert(p, (k, v));
    assert forall|i: int, j: int| 0 <= i < j < qs.len() implies qs[i].0 != qs[j].0 by {
        if i == p {
            assert(ps[j - 1].0 == qs[j].0);
        } else if j == p {
            assert(ps[i].0 == qs[i].0);
        } else {
            let a = if i < p { i } else { i - 1 };
            let b = if j < p { j } else { j - 1 };
            assert(ps[a].0 == qs[i].0 && ps[b].0 == qs[j].0);
        }
    }
    let rs = ps.push((k, v));
    assert(distinct_keys(rs)) by {
        assert forall|i: int, j: int| 0 <= i < j < rs.len() implies rs[i].0 != rs[j].0 by {
            if j == ps.len() {
                assert(rs[i].0 == ps[i].0);
            } else {
                assert(rs[i] == ps[i] && rs[j] == ps[j]);
            }
        }
    }
    assert(rs.drop_last() =~= ps);
    assert forall|key: K| has_key(qs, key) <==> has_key(rs, key) by {
        if has_key(qs, key) {
            let i = choose|i: int| 0 <= i < qs.len() && qs[i].0 == key;
            if i == p {
                assert(rs[ps.len() as int].0 == key);
            } else if i < p {
                assert(rs[i].0 == key);
            } else {
                assert(rs[i - 1].0 == key);
            }
        }
        if has_key(rs, key) {
            let i = choose|i: int| 0 <= i < rs.len() && rs[i].0 == key;
            if i == ps.len() {
                assert(qs[p].0 == key);
            } else if i < p {
                assert(qs[i].0 == key);
            } else {
                assert(qs[i + 1].0 == key);
            }
        }
    }
    assert forall|i: int, j: int|
        0 <= i < qs.len() && 0 <= j < rs.len() && qs[i].0 == rs[j].0 implies qs[i].1 == rs[j].1 by {
        let a: int = if i == p { ps.len() as int } else if i < p { i } else { i - 1 };
        assert(rs[a] == qs[i]);
        assert(rs[a].0 == rs[j].0);
    }
    lemma_assoc_map_ext(qs, rs);
}

/// Overwriting the value at a pair's position rebinds its key in the map.
pub proof fn lemma_assoc_update<K, V>(ps: Seq<(K, V)>, p: int, v: V)
    requires
        distinct_keys(ps),
        0 <= p < ps.len(),
    ensures
        distinct_keys(ps.update(p, (ps[p].0, v))),
        assoc_map(ps.update(p, (ps[p].0, v))) == assoc_map(ps).insert(ps[p].0, v),
{
    let k = ps[p].0;
    let qs = ps.update(p, (k, v));
    assert forall|i: int, j: int| 0 <= i < j < qs.len() implies qs[i].0 != qs[j].0 by {
        assert(qs[i].0 == ps[i].0 && qs[j].0 == ps[j].0);
    }
    lemma_assoc_map(ps);
    lemma_assoc_map(qs);
    assert forall|key: K| has_key(qs, key) <==> has_key(ps, key) by {
        if has_key(qs, key) {
            let i = choose|i: int| 0 <= i < qs.len() && qs[i].0 == key;
            assert(ps[i].0 == key);
        }
        if has_key(ps, key) {
            let i = choose|i: int| 0 <= i < ps.len() && ps[i].0 == key;
            assert(qs[i].0 == key);
        }
    }
    assert forall|key: K| assoc_map(qs).contains_key(key) implies assoc_map(qs)[key] == assoc_map(
        ps,
    ).insert(k, v)[key] by {
        let i = choose|i: int| 0 <= i < qs.len() && qs[i].0 == key;
        assert(assoc_map(qs).contains_key(qs[i].0));
        if i != p {
            assert(assoc_map(ps).contains_key(ps[i].0));
        }
    }
    assert(assoc_map(qs) =~= assoc_map(ps).insert(k, v));
}

/// Removing a pair removes its key from the map.
pub proof fn lemma_assoc_remove<K, V>(ps: Seq<(K, V)>, p: int)
    requires
        distinct_keys(ps),
        0 <= p < ps.len(),
    ensures
        distinct_keys(ps.remove(p)),
        assoc_map(ps.remove(p)) == assoc_map(ps).remove(ps[p].0),
{
    let k = ps[p].0;
    let qs = ps.remove(p);
    assert forall|i: int, j: int| 0 <= i < j < qs.len() implies qs[i].0 != qs[j].0 by {
        let a = if i < p { i } else { i + 1 };
        let b = if j < p { j } else { j + 1 };
        assert(qs[i] == ps[a] && qs[j] == ps[b]);
    }
    lemma_assoc_map(ps);
    lemma_assoc_map(qs);
    assert forall|key: K| has_key(qs, key) <==> (has_key(ps, key) && key != k) by {
        if has_key(qs, key) {
            let i = choose|i: int| 0 <= i < qs.len() && qs[i].0 == key;
            let a = if i < p { i } else { i + 1 };
            assert(ps[a].0 == key);
        }
        if has_key(ps, key) && key != k {
            let i = choose|i: int| 0 <= i < ps.len() && ps[i].0 == key;
            if i < p {
                assert(qs[i].0 == key);
            } else {
                assert(qs[i - 1].0 == key);
            }
        }
    }
    assert forall|key: K| assoc_map(qs).contains_key(key) implies assoc_map(qs)[key] == assoc_map(
        ps,
    )[key] by {
        let i = choose|i: int| 0 <= i < qs.len() && qs[i].0 == key;
        let a = if i < p { i } else { i + 1 };
        assert(qs[i] == ps[a]);
        assert(assoc_map(qs).contains_key(qs[i].0));
        assert(assoc_map(ps).contains_key(ps[a].0));
    }
    assert(assoc_map(qs) =~= assoc_map(ps).remove(k));
}

} // verus!
