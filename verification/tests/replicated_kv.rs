//! End-to-end: drive a cluster, feed it key-value commands in their JSON wire
//! form, rebuild each node's store from what it applied, and check that all
//! replicas agree.
use raftcache::cluster::{run_until_leader, Cluster};
use raftcache::command::Command;
use raftcache::store::KvStore;
use raftcache::types::NodeId;

/// The JSON form of a command: `{"Set":{"key":..,"value":..}}` or `{"Delete":{"key":..}}`.
fn encode(command: &Command) -> Vec<u8> {
    let mut fields = serde_json::Map::new();
    let tag = match command {
        Command::Put { key, value } => {
            fields.insert("key".to_string(), serde_json::Value::String(key.clone()));
            fields.insert("value".to_string(), serde_json::Value::String(value.clone()));
            "Set"
        }
        Command::Delete { key } => {
            fields.insert("key".to_string(), serde_json::Value::String(key.clone()));
            "Delete"
        }
    };
    let mut outer = serde_json::Map::new();
    outer.insert(tag.to_string(), serde_json::Value::Object(fields));
    serde_json::to_vec(&serde_json::Value::Object(outer)).expect("a JSON value always serializes")
}

fn decode(bytes: &[u8]) -> Command {
    let value: serde_json::Value = serde_json::from_slice(bytes).expect("committed bytes are JSON");
    let outer = value.as_object().expect("a tagged object");
    let field = |fields: &serde_json::Value, name: &str| -> String {
        fields.get(name).and_then(|v| v.as_str()).expect("a string field").to_string()
    };
    if let Some(fields) = outer.get("Set") {
        Command::Put { key: field(fields, "key"), value: field(fields, "value") }
    } else {
        let fields = outer.get("Delete").expect("a Set or Delete command");
        Command::Delete { key: field(fields, "key") }
    }
}

/// Reconstructs a node's KV state by applying its committed entries in order.
fn store_for(cluster: &Cluster, node: NodeId) -> KvStore {
    let mut store = KvStore::new();
    for (index, bytes) in cluster.applied_entries(node) {
        let command = decode(&bytes);
        store.apply(index, &command);
    }
    store
}

#[test]
fn replicated_kv_state_agrees_across_nodes() {
    let mut cluster = Cluster::new(3);
    run_until_leader(&mut cluster, 50);
    assert!(cluster.leader().is_some(), "a leader should be elected");

    let commands = [
        Command::Put { key: "alpha".into(), value: "1".into() },
        Command::Put { key: "beta".into(), value: "2".into() },
        Command::Put { key: "alpha".into(), value: "updated".into() },
        Command::Delete { key: "beta".into() },
    ];
    for command in &commands {
        assert!(cluster.propose(encode(command)), "leader should accept the proposal");
        cluster.run(8);
    }
    cluster.run(20); // drain replication

    let ids = cluster.node_ids();
    let reference = store_for(&cluster, ids[0]);
    for &id in &ids {
        assert_eq!(store_for(&cluster, id), reference, "node {id} diverged");
    }

    assert_eq!(reference.get("alpha"), Some(&"updated".to_string()));
    assert_eq!(reference.get("beta"), None);

    cluster.check_applied_consistency().expect("no divergent committed entries");
}

#[test]
fn committed_entries_survive_leader_partition() {
    let mut cluster = Cluster::new(3);
    run_until_leader(&mut cluster, 50);

    assert!(cluster.propose(encode(&Command::Put { key: "durable".into(), value: "yes".into() })));
    cluster.run(15);

    let old_leader = cluster.leader().expect("a leader before partition");
    cluster.partition(&[old_leader]);
    cluster.run(40);

    assert!(cluster.propose(encode(&Command::Put { key: "after".into(), value: "heal".into() })));
    cluster.run(20);

    cluster.heal();
    cluster.run(40);

    cluster.check_applied_consistency().expect("no divergence across partition/heal");
    for id in cluster.node_ids() {
        let store = store_for(&cluster, id);
        assert_eq!(store.get("durable"), Some(&"yes".to_string()), "node {id} lost a committed entry");
    }
}

#[test]
fn wire_form_round_trips() {
    let put = Command::Put { key: "k".into(), value: "v".into() };
    assert_eq!(encode(&put), br#"{"Set":{"key":"k","value":"v"}}"#.to_vec());
    assert_eq!(decode(&encode(&put)), put);
    let del = Command::Delete { key: "k".into() };
    assert_eq!(decode(&encode(&del)), del);
}
