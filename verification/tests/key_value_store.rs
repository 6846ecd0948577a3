use kv_store::kv::KvStore;
use kv_store::message::Command;

fn put(key: &str, value: &[u8]) -> Command {
    Command::Put { key: key.to_string(), value: value.to_vec() }
}

#[test]
fn only_writes_change_the_store() {
    let mut store = KvStore::new();
    assert!(store.is_empty());
    store.apply(&Command::NoOp);
    store.apply(&Command::Get { key: "a".to_string() });
    store.apply(&Command::RequestVote {
        term: 1,
        candidate_id: "n".to_string(),
        last_log_index: 0,
        last_log_term: 0,
    });
    assert!(store.is_empty());
    assert_eq!(store.len(), 0);
    store.apply(&put("a", &[1]));
    assert_eq!(store.len(), 1);
    assert!(!store.is_empty());
    assert_eq!(store.get("a"), Some(vec![1]));
    assert_eq!(store.get("b"), None);
}

#[test]
fn the_last_write_wins() {
    let mut store = KvStore::default();
    store.apply(&put("a", &[1]));
    store.apply(&put("b", &[2]));
    store.apply(&put("a", &[3, 4]));
    assert_eq!(store.get("a"), Some(vec![3, 4]));
    assert_eq!(store.get("b"), Some(vec![2]));
    assert_eq!(store.len(), 2);
}

#[test]
fn a_cloned_command_is_the_same_command() {
    let command = Command::AppendEntries {
        term: 2,
        leader_id: "n1".to_string(),
        prev_log_index: 1,
        prev_log_term: 1,
        entries: vec![kv_store::message::LogEntry { term: 2, index: 2, command: put("k", &[5]) }],
        leader_commit: 1,
    };
    assert_eq!(command.clone(), command);
    assert_ne!(command, Command::NoOp);
}
