//! A leader's commit: the replica count it commits on is a majority of
//! nodes that acknowledged the entry.
use vstd::prelude::*;

use crate::cluster_model::{ids_below, peers_for};
use crate::history::{ack_of, acked_by, committed, majority, progress_ok, History};
use crate::log::term_at_of;
use crate::node_model::{committable, match_of, peers_holding, quorum_of, NodeView};
use crate::types::{LogIndex, NodeId};

verus! {

/// The peers in `peers` whose recorded match index reaches `n`.
pub open spec fn holding_set(s: NodeView, peers: Seq<NodeId>, n: LogIndex) -> Set<NodeId> {
    Set::new(|p: NodeId| peers.contains(p) && match_of(s, p) >= n)
}

/// Without repeated peers, the count of peers holding `n` is the size of
/// the set of them.
pub proof fn lemma_holding_set(s: NodeView, peers: Seq<NodeId>, n: LogIndex)
    requires
        peers.no_duplicates(),
    ensures
        holding_set(s, peers, n).finite(),
        holding_set(s, peers, n).len() == peers_holding(s, peers, n),
    decreases peers.len(),
{
    if peers.len() == 0 {
        assert(holding_set(s, peers, n) =~= Set::<NodeId>::empty());
    } else {
        let init = peers.drop_last();
        let last = peers.last();
        assert(init.no_duplicates()) by {
            assert forall|i: int, j: int| 0 <= i < init.len() && 0 <= j < init.len() && i != j implies init[i]
                != init[j] by {
                assert(init[i] == peers[i]);
                assert(init[j] == peers[j]);
            }
        }
        lemma_holding_set(s, init, n);
        assert(!init.contains(last)) by {
            if init.contains(last) {
                let i = choose|i: int| 0 <= i < init.len() && init[i] == last;
                assert(peers[i] == peers[peers.len() - 1]);
            }
        }
        if match_of(s, last) >= n {
            assert(holding_set(s, peers, n) =~= holding_set(s, init, n).insert(last)) by {
                assert forall|p: NodeId| peers.contains(p) implies init.contains(p) || p == last by {
                    let i = choose|i: int| 0 <= i < peers.len() && peers[i] == p;
                    if i < peers.len() - 1 {
                        assert(init[i] == p);
                    }
                }
                assert forall|p: NodeId| init.contains(p) implies peers.contains(p) by {
                    let i = choose|i: int| 0 <= i < init.len() && init[i] == p;
                    assert(peers[i] == p);
                }
                assert(peers[peers.len() - 1] == last);
            }
        } else {
            assert(holding_set(s, peers, n) =~= holding_set(s, init, n)) by {
                assert forall|p: NodeId| peers.contains(p) && p != last implies init.contains(p) by {
                    let i = choose|i: int| 0 <= i < peers.len() && peers[i] == p;
                    if i < peers.len() - 1 {
                        assert(init[i] == p);
                    }
                }
                assert forall|p: NodeId| init.contains(p) implies peers.contains(p) by {
                    let i = choose|i: int| 0 <= i < init.len() && init[i] == p;
                    assert(peers[i] == p);
                }
            }
        }
    }
}

/// The peers of a node are every other id, once each.
pub proof fn lemma_peers_for(count: nat, id: NodeId)
    requires
        id < count <= u64::MAX,
    ensures
        peers_for(count, id).no_duplicates(),
        !peers_for(count, id).contains(id),
        forall|p: NodeId| #[trigger] peers_for(count, id).contains(p) ==> p < count,
{
    let ps = peers_for(count, id);
    assert forall|i: int, j: int| 0 <= i < ps.len() && 0 <= j < ps.len() && i != j implies ps[i] != ps[j] by {
    }
    assert forall|p: NodeId| #[trigger] ps.contains(p) implies p < count && p != id by {
        let i = choose|i: int| 0 <= i < ps.len() && ps[i] == p;
    }
}

/// An index a leader may commit is committed: its own acknowledgement and
/// those its match indices record make a majority.
pub proof fn lemma_leader_commit(h: History, count: nat, s: NodeView, nc: LogIndex)
    requires
        s.id < count <= u64::MAX,
        s.peers == peers_for(count, s.id),
        committable(s, nc),
        progress_ok(h, s),
        ack_of(h, s.id, s.current_term) >= s.log.len(),
        h.lt.contains_key(s.current_term),
        h.lt[s.current_term] == s.log,
        1 <= nc,
    ensures
        committed(h, count, s.current_term, nc as int),
{
    let t = s.current_term;
    lemma_peers_for(count, s.id);
    lemma_holding_set(s, s.peers, nc);
    let hs = holding_set(s, s.peers, nc);
    let ab = acked_by(h, count, t, nc as int);
    assert(term_at_of(s.log, nc) == Some(t));
    assert(nc <= s.log.len());
    crate::cluster_model::lemma_ids_below(count);
    assert(ab.subset_of(ids_below(count)));
    vstd::set_lib::lemma_len_subset(ab, ids_below(count));
    assert(hs.insert(s.id).subset_of(ab)) by {
        assert forall|p: NodeId| hs.insert(s.id).contains(p) implies ab.contains(p) by {
            if p != s.id {
                assert(match_of(s, p) <= ack_of(h, p, t));
            }
        }
    }
    assert(!hs.contains(s.id));
    vstd::set_lib::lemma_len_subset(hs.insert(s.id), ab);
    assert(quorum_of(s) == majority(count));
}

} // verus!
