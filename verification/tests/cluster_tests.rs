use raftcache::cluster::{run_until_leader, Cluster};

#[test]
fn three_nodes_elect_single_leader() {
    let mut cluster = Cluster::new(3);
    run_until_leader(&mut cluster, 30);
    assert!(cluster.leader().is_some());
    cluster.check_one_leader_per_term().unwrap();
}

#[test]
fn leader_replicates_to_all_nodes() {
    let mut cluster = Cluster::new(3);
    run_until_leader(&mut cluster, 30);
    assert!(cluster.propose(vec![1, 2, 3]));
    cluster.run(20);

    for id in cluster.node_ids() {
        assert_eq!(
            cluster.applied_command(id, 1),
            Some(vec![1, 2, 3]),
            "node {id} should have applied index 1"
        );
    }
    cluster.check_applied_consistency().unwrap();
}

#[test]
fn partition_then_heal_preserves_safety() {
    let mut cluster = Cluster::new(3);
    run_until_leader(&mut cluster, 30);

    // Replicate an entry to the whole cluster first.
    assert!(cluster.propose(vec![9]));
    cluster.run(15);
    for id in cluster.node_ids() {
        assert_eq!(cluster.applied_command(id, 1), Some(vec![9]));
    }

    // Isolate the leader; the majority side must elect a new one.
    let old_leader = cluster.leader().expect("a leader before partition");
    cluster.partition(&[old_leader]);
    cluster.run(40);
    let new_leader = cluster.leader().expect("majority side elects a leader");
    assert_ne!(new_leader, old_leader);

    // Heal and let terms reconcile; safety must hold throughout.
    cluster.heal();
    cluster.run(40);
    cluster.check_one_leader_per_term().unwrap();
    cluster.check_applied_consistency().unwrap();

    // The originally-committed entry is never lost.
    for id in cluster.node_ids() {
        assert_eq!(cluster.applied_command(id, 1), Some(vec![9]));
    }
}

#[test]
fn first_leader_is_node_zero_with_shortest_timeout() {
    let mut cluster = Cluster::new(3);
    assert_eq!(cluster.leader(), None);
    run_until_leader(&mut cluster, 30);
    assert_eq!(cluster.leader(), Some(0));
    assert_eq!(cluster.term_of(0), Some(1));
    assert_eq!(cluster.term_of(3), None);
    assert_eq!(cluster.node_ids(), vec![0, 1, 2]);
}

#[test]
fn propose_without_leader_is_refused() {
    let mut cluster = Cluster::new(3);
    assert!(!cluster.propose(vec![1]));
    assert!(cluster.applied_entries(0).is_empty());
}

#[test]
fn applied_entries_come_in_index_order() {
    let mut cluster = Cluster::new(3);
    run_until_leader(&mut cluster, 30);
    assert!(cluster.propose(vec![1]));
    cluster.run(4);
    assert!(cluster.propose(vec![2]));
    cluster.run(20);
    for id in cluster.node_ids() {
        assert_eq!(cluster.applied_entries(id), vec![(1, vec![1]), (2, vec![2])]);
    }
    assert_eq!(cluster.applied_entries(7), Vec::<(u64, Vec<u8>)>::new());
    assert_eq!(cluster.applied_command(7, 1), None);
}

#[test]
fn single_node_cluster_commits_alone() {
    let mut cluster = Cluster::new(1);
    run_until_leader(&mut cluster, 10);
    assert_eq!(cluster.leader(), Some(0));
    assert!(cluster.propose(vec![5]));
    assert_eq!(cluster.applied_command(0, 1), Some(vec![5]));
}

#[test]
fn empty_cluster_has_no_leader() {
    let mut cluster = Cluster::new(0);
    cluster.run(5);
    assert_eq!(cluster.leader(), None);
    assert!(cluster.node_ids().is_empty());
    cluster.check_one_leader_per_term().unwrap();
    cluster.check_applied_consistency().unwrap();
}

#[test]
fn five_nodes_keep_applied_entries_through_repeated_partitions() {
    let mut cluster = Cluster::new(5);
    run_until_leader(&mut cluster, 40);
    let mut snapshots: Vec<Vec<(u64, Vec<u8>)>> = Vec::new();
    for round in 0u8..4 {
        assert!(cluster.propose(vec![round, 1]));
        assert!(cluster.propose(vec![round, 2]));
        cluster.run(15);
        cluster.check_one_leader_per_term().unwrap();
        cluster.check_applied_consistency().unwrap();
        snapshots.push(cluster.applied_entries(0));

        // Cut the leader and one follower off; the other three go on.
        let leader = cluster.leader().expect("a leader before the partition");
        let other = (leader + 1 + round as u64) % 5;
        cluster.partition(&[leader, other]);
        cluster.run(40);
        cluster.check_one_leader_per_term().unwrap();
        cluster.check_applied_consistency().unwrap();
        cluster.heal();
        cluster.run(40);
        cluster.check_one_leader_per_term().unwrap();
        cluster.check_applied_consistency().unwrap();
    }
    // Every node ends with the same applied entries, and nothing applied
    // earlier was lost or changed.
    let reference = cluster.applied_entries(0);
    for id in cluster.node_ids() {
        assert_eq!(cluster.applied_entries(id), reference);
    }
    for snapshot in &snapshots {
        for (index, command) in snapshot {
            assert_eq!(cluster.applied_command(0, *index), Some(command.clone()));
        }
    }
    assert_eq!(reference.len(), 8);
}
