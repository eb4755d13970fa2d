use raftcache::command::Command;
use raftcache::store::{rebuild_store, KvStore};

#[test]
fn set_then_get() {
    let mut store = KvStore::new();
    store.apply(1, &Command::Put { key: "a".into(), value: "1".into() });
    assert_eq!(store.get("a"), Some(&"1".to_string()));
    assert_eq!(store.applied_index(), 1);
}

#[test]
fn delete_removes_key() {
    let mut store = KvStore::new();
    store.apply(1, &Command::Put { key: "a".into(), value: "1".into() });
    store.apply(2, &Command::Delete { key: "a".into() });
    assert_eq!(store.get("a"), None);
    assert_eq!(store.applied_index(), 2);
}

#[test]
fn same_command_sequence_is_deterministic() {
    let cmds = [
        Command::Put { key: "a".into(), value: "1".into() },
        Command::Put { key: "b".into(), value: "2".into() },
        Command::Delete { key: "a".into() },
    ];
    let mut first = KvStore::new();
    let mut second = KvStore::new();
    for (i, cmd) in cmds.iter().enumerate() {
        first.apply(i as u64 + 1, cmd);
        second.apply(i as u64 + 1, cmd);
    }
    assert_eq!(first, second);
    assert_eq!(first.len(), 1);
}

#[test]
fn pairs_are_sorted_by_key() {
    let mut store = KvStore::new();
    store.apply(1, &Command::Put { key: "pear".into(), value: "3".into() });
    store.apply(2, &Command::Put { key: "apple".into(), value: "1".into() });
    store.apply(3, &Command::Put { key: "fig".into(), value: "2".into() });
    store.apply(4, &Command::Put { key: "apple".into(), value: "9".into() });
    assert_eq!(
        store.pairs(),
        vec![
            ("apple".to_string(), "9".to_string()),
            ("fig".to_string(), "2".to_string()),
            ("pear".to_string(), "3".to_string()),
        ]
    );
    assert_eq!(store.len(), 3);
    assert!(!store.is_empty());
}

#[test]
fn keys_order_by_bytes() {
    let mut store = KvStore::new();
    store.apply(1, &Command::Put { key: "b".into(), value: "x".into() });
    store.apply(2, &Command::Put { key: "B".into(), value: "y".into() });
    store.apply(3, &Command::Put { key: "ba".into(), value: "z".into() });
    store.apply(4, &Command::Put { key: "é".into(), value: "w".into() });
    let keys: Vec<String> = store.pairs().into_iter().map(|(k, _)| k).collect();
    assert_eq!(keys, vec!["B".to_string(), "b".to_string(), "ba".to_string(), "é".to_string()]);
}

#[test]
fn deleting_missing_key_changes_only_index() {
    let mut store = KvStore::new();
    store.apply(1, &Command::Put { key: "a".into(), value: "1".into() });
    store.apply(2, &Command::Delete { key: "zz".into() });
    assert_eq!(store.get("a"), Some(&"1".to_string()));
    assert_eq!(store.len(), 1);
    assert_eq!(store.applied_index(), 2);
}

#[test]
fn insertion_order_does_not_matter_for_equality() {
    let mut a = KvStore::new();
    a.apply(1, &Command::Put { key: "x".into(), value: "1".into() });
    a.apply(2, &Command::Put { key: "y".into(), value: "2".into() });
    let mut b = KvStore::new();
    b.apply(1, &Command::Put { key: "y".into(), value: "2".into() });
    b.apply(2, &Command::Put { key: "x".into(), value: "1".into() });
    assert_eq!(a, b);
}

#[test]
fn rebuild_store_replays_in_order() {
    let commands = vec![
        (1, Command::Put { key: "alpha".into(), value: "1".into() }),
        (2, Command::Put { key: "beta".into(), value: "2".into() }),
        (3, Command::Put { key: "alpha".into(), value: "updated".into() }),
        (4, Command::Delete { key: "beta".into() }),
    ];
    let store = rebuild_store(&commands);
    assert_eq!(store.get("alpha"), Some(&"updated".to_string()));
    assert_eq!(store.get("beta"), None);
    assert_eq!(store.applied_index(), 4);
    assert_eq!(KvStore::default(), KvStore::new());
}
