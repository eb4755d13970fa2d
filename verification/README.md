# raftcache

A replicated key-value cache built on a deterministic Raft consensus core,
written in Verus. The consensus node is a pure state machine from
`(state, event)` to `(state, actions)`; a simulation drives a virtual cluster
over a network with a logical clock, partitions and message loss.

## What is proved

- `node`: `RaftNode::step` follows the transition model of `node_model`
  exactly; `node_laws` proves what every step keeps (terms never decrease,
  one vote per term, the election restriction, the current-term commit rule,
  step-down on a higher term).
- `cluster`: every cluster built by `Cluster::new` and driven by its methods
  keeps its invariant, and for it:
  - Election Safety: at most one leader per term (`lemma_election_safety`);
  - State Machine Safety: nodes that applied an entry at the same index
    applied the same command (`lemma_state_machine_safety`), and no applied
    entry is ever lost or changed (`applied_kept` in the contracts of `tick`,
    `run` and `propose`);
  - Log Matching (`lemma_log_matching`) and Leader Completeness
    (`lemma_leader_completeness`).
- `store`: the key-value store's listing and lookups, and deterministic replay.

The safety proofs rest on a proof-only history (`history`): each term's leader
log, the votes that elected it, the log each voter held when it voted, and the
prefix of each leader log each node acknowledged. The `safety_*` modules show
that every node step keeps the history consistent with the cluster.

`app/` holds the command-line program: argument parsing and the wire format of
commands.
