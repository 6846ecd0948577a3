use kv_store::state::{RaftState, RaftStateStore, SaveStep, StateError};

/// Files that live in memory.
struct Files {
    held: Vec<(String, Vec<u8>)>,
}

impl Files {
    fn read(&self, path: &str) -> Option<&[u8]> {
        self.held.iter().find(|f| f.0 == path).map(|f| &f.1[..])
    }

    fn write(&mut self, path: &str, bytes: &[u8]) {
        self.held.retain(|f| f.0 != path);
        self.held.push((path.to_string(), bytes.to_vec()));
    }

    fn open(&self) -> (RaftStateStore, RaftState) {
        RaftStateStore::open("raft-state.bin".to_string(), self.read("raft-state.bin")).unwrap()
    }

    fn save(&mut self, store: &RaftStateStore, state: &RaftState) {
        for step in store.save(state).unwrap() {
            match step {
                SaveStep::WriteFile { path, bytes } => self.write(&path, &bytes),
                SaveStep::Rename { from, to } => {
                    let bytes = self.read(&from).unwrap().to_vec();
                    self.held.retain(|f| f.0 != from);
                    self.write(&to, &bytes);
                }
                SaveStep::SyncDirOf { path } => assert_eq!(path, store.path()),
            }
        }
    }
}

#[test]
fn raft_state_round_trips() {
    let mut files = Files { held: Vec::new() };
    let (store, state) = files.open();
    assert_eq!(state, RaftState::default(), "a node that never voted starts clean");

    let saved = RaftState {
        current_term: 7,
        voted_for: Some("node3:7878".to_string()),
        commit_index: 42,
    };
    files.save(&store, &saved);
    drop(store);

    let (_store, reloaded) = files.open();
    assert_eq!(reloaded, saved);
}

#[test]
fn raft_state_ignores_a_leftover_temp_file() {
    let mut files = Files { held: Vec::new() };
    let (store, _) = files.open();
    let saved = RaftState { current_term: 3, voted_for: None, commit_index: 0 };
    files.save(&store, &saved);

    // A crash mid-save leaves a half-written temp file behind; the real state file
    // must still be the one that's read.
    files.write("raft-state.tmp", b"garbage");

    let (_store, reloaded) = files.open();
    assert_eq!(reloaded, saved);
}

/// Before the vote was persisted, a node that crashed after voting came back at
/// term 0 and could vote again in the same term, electing two leaders at once.
#[test]
fn a_restarted_node_remembers_who_it_voted_for() {
    let mut files = Files { held: Vec::new() };
    let (store, mut state) = files.open();
    state.current_term = 5;
    state.voted_for = Some("node1:7878".to_string());
    files.save(&store, &state);
    drop(store);

    // Restart.
    let (_store, state) = files.open();
    assert_eq!(state.current_term, 5, "the term survived the crash");
    assert_eq!(state.voted_for.as_deref(), Some("node1:7878"));
}

#[test]
fn the_state_file_is_fixed_width_little_endian() {
    let (store, _) = RaftStateStore::open("s".to_string(), None).unwrap();
    let state = RaftState { current_term: 7, voted_for: Some("é".to_string()), commit_index: 258 };
    let bytes = match &store.save(&state).unwrap()[0] {
        SaveStep::WriteFile { bytes, .. } => bytes.clone(),
        other => panic!("unexpected {:?}", other),
    };
    let mut expected = vec![7, 0, 0, 0, 0, 0, 0, 0, 1, 2, 0, 0, 0, 0, 0, 0, 0];
    expected.extend_from_slice("é".as_bytes());
    expected.extend_from_slice(&[2, 1, 0, 0, 0, 0, 0, 0]);
    assert_eq!(bytes, expected);

    // What follows the state is ignored.
    let mut longer = bytes.clone();
    longer.push(9);
    let (_, reloaded) = RaftStateStore::open("s".to_string(), Some(&longer[..])).unwrap();
    assert_eq!(reloaded, state);
}

#[test]
fn an_unreadable_state_file_is_an_error() {
    let short = RaftStateStore::open("s".to_string(), Some(b"garbage"));
    assert!(matches!(short, Err(StateError::Unreadable(_))));
    let mut bad_tag = vec![0u8; 17];
    bad_tag[8] = 2;
    let bad_tag = RaftStateStore::open("s".to_string(), Some(&bad_tag[..]));
    assert!(matches!(bad_tag, Err(StateError::Unreadable(_))));
    let mut bad_text = vec![0u8; 26];
    bad_text[8] = 1;
    bad_text[9] = 1;
    bad_text[17] = 0xff;
    let bad_text = RaftStateStore::open("s".to_string(), Some(&bad_text[..]));
    assert!(matches!(bad_text, Err(StateError::Unreadable(_))));
}

#[test]
fn the_temp_file_lies_beside_the_state_file() {
    for (path, tmp) in [
        ("raft-state.bin", "raft-state.tmp"),
        ("/var/lib/raft-state.bin", "/var/lib/raft-state.tmp"),
        ("state", "state.tmp"),
        ("a.b/state", "a.b/state.tmp"),
        ("x.tar.gz", "x.tar.tmp"),
        (".hidden", ".hidden.tmp"),
    ] {
        let (store, _) = RaftStateStore::open(path.to_string(), None).unwrap();
        assert_eq!(store.path(), path);
        assert_eq!(store.tmp_path(), tmp);
    }
}

#[test]
fn a_save_writes_renames_and_flushes_in_that_order() {
    let (store, state) = RaftStateStore::open("s.bin".to_string(), None).unwrap();
    let steps = store.save(&state).unwrap();
    assert_eq!(steps.len(), 3);
    assert!(matches!(&steps[0], SaveStep::WriteFile { path, .. } if path == "s.tmp"));
    let rename = SaveStep::Rename { from: "s.tmp".to_string(), to: "s.bin".to_string() };
    assert_eq!(steps[1], rename);
    assert_eq!(steps[2], SaveStep::SyncDirOf { path: "s.bin".to_string() });
}
