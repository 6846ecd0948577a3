use kv_store::kv::KvStore;
use kv_store::message::{Command, LogEntry};
use kv_store::raft_log::{AppendOutcome, LogStop, RaftLog, StopReason};
use kv_store::wal::{FileOp, Wal, WalError};

/// A log file that lives in memory, and the entries in it.
struct Disk {
    bytes: Vec<u8>,
}

fn encode(entry: &LogEntry) -> Vec<u8> {
    match &entry.command {
        Command::Put { key, value } => {
            bincode::serialize(&(entry.term, entry.index, 0u32, key, value)).unwrap()
        }
        other => panic!("no such entry here: {:?}", other),
    }
}

fn decode(payload: &[u8]) -> Option<LogEntry> {
    let decoded: Result<(u64, u64, u32, String, Vec<u8>), _> = bincode::deserialize(payload);
    match decoded {
        Ok((term, index, 0, key, value)) => {
            Some(LogEntry { term, index, command: Command::Put { key, value } })
        }
        _ => None,
    }
}

impl Disk {
    fn new() -> Disk {
        Disk { bytes: Vec::new() }
    }

    fn perform(&mut self, op: &FileOp) {
        match op {
            FileOp::WriteAt { offset, bytes } => {
                let start = *offset as usize;
                if self.bytes.len() < start + bytes.len() {
                    self.bytes.resize(start + bytes.len(), 0);
                }
                self.bytes[start..start + bytes.len()].copy_from_slice(bytes);
            }
            FileOp::SetLen { len } => self.bytes.resize(*len as usize, 0),
        }
    }

    fn open_with_stop(&mut self) -> (RaftLog, Option<LogStop>) {
        let (wal, records, ops) = Wal::open("wal.log".to_string(), &self.bytes).unwrap();
        for op in &ops {
            self.perform(op);
        }
        let decoded: Vec<Option<LogEntry>> = records.iter().map(|r| decode(&r.payload)).collect();
        let (log, stop) = RaftLog::open(wal, &records, &decoded);
        if let Some(stop) = stop {
            self.perform(&Wal::cut(stop.offset));
        }
        (log, stop)
    }

    fn open(&mut self) -> RaftLog {
        self.open_with_stop().0
    }

    fn append_command(&mut self, log: &mut RaftLog, term: u64, command: Command) -> u64 {
        let payload = encode(&log.next_entry(term, command.clone()));
        let op = log.frame(&payload).unwrap();
        self.perform(&op);
        log.append_command(term, command, &payload, true).unwrap()
    }

    fn truncate_from(&mut self, log: &mut RaftLog, index: u64) {
        if let Some(op) = log.truncation(index) {
            self.perform(&op);
        }
        log.truncate_from(index, true).unwrap();
    }

    fn try_append(
        &mut self,
        log: &mut RaftLog,
        prev_index: u64,
        prev_term: u64,
        entries: &[LogEntry],
    ) -> AppendOutcome {
        let payloads: Vec<Vec<u8>> = entries.iter().map(encode).collect();
        assert!(log.has_room(&payloads));
        let ops = log.plan_append(prev_index, prev_term, entries, &payloads);
        for op in &ops {
            self.perform(op);
        }
        log.try_append(prev_index, prev_term, entries, &payloads, ops.len()).unwrap()
    }
}

fn set(key: &str, value: u8) -> Command {
    Command::Put { key: key.to_string(), value: vec![value] }
}

#[test]
fn raft_log_restores_entries_across_a_reopen() {
    let mut disk = Disk::new();
    let mut log = disk.open();
    assert_eq!(log.last_index(), 0, "an empty log is at index 0");
    assert_eq!(disk.append_command(&mut log, 1, set("a", 1)), 1);
    assert_eq!(disk.append_command(&mut log, 1, set("b", 2)), 2);
    assert_eq!(disk.append_command(&mut log, 2, set("a", 3)), 3);
    drop(log);

    let log = disk.open();
    assert_eq!(log.last_index(), 3);
    assert_eq!(log.last_term(), 2);
    assert_eq!(log.term_at(1), Some(1));
    assert_eq!(log.term_at(0), Some(0), "index 0 is the empty-log sentinel");

    // Replaying the log into the state machine is how a node recovers.
    let mut store = KvStore::new();
    for i in 1..=log.last_index() {
        store.apply(&log.entry_at(i).unwrap().command);
    }
    assert_eq!(store.get("a"), Some(vec![3]), "last write for a key wins");
    assert_eq!(store.get("b"), Some(vec![2]));
    assert_eq!(store.get("missing"), None);
}

/// The failure a checksum cannot see. We truncate a diverged suffix and crash
/// before writing the replacement, so records that were logically removed are
/// still physically present and still checksum perfectly. Only the index sequence
/// gives them away.
#[test]
fn raft_log_drops_a_stale_suffix_that_still_checksums() {
    let mut disk = Disk::new();
    let mut log = disk.open();
    for i in 1..=10u8 {
        disk.append_command(&mut log, 1, set(&format!("key{}", i), i));
    }
    drop(log);
    let intact = disk.bytes.clone();

    // Truncate back to 5 entries, then put the original bytes for entries 6..10
    // back, exactly as they were on disk.
    let mut log = disk.open();
    disk.truncate_from(&mut log, 6);
    drop(log);
    let truncated_len = disk.bytes.len();
    disk.bytes = intact.clone();
    assert!(intact.len() > truncated_len, "the stale bytes are really there");

    // Every one of those records passes its checksum, so recovery has to catch
    // this some other way: write a *new* entry 6 and check the leftovers go.
    let mut log = disk.open();
    disk.truncate_from(&mut log, 6);
    disk.append_command(&mut log, 2, set("replacement", 99));
    // Now paste the stale tail back on, as a crash mid-truncate would leave it.
    disk.bytes.extend_from_slice(&intact[truncated_len..]);
    drop(log);

    let (log, stop) = disk.open_with_stop();
    assert_eq!(log.last_index(), 6, "the resurrected entries are gone");
    assert_eq!(log.last_term(), 2);
    assert_eq!(
        log.entry_at(6).unwrap().command,
        set("replacement", 99),
        "the replacement entry survived, the stale ones did not"
    );
    assert_eq!(stop.unwrap().reason, StopReason::WrongIndex { expected: 7, found: 6 });
    assert_eq!(disk.bytes.len() as u64, log.end_offset());
}

#[test]
fn try_append_truncates_a_conflicting_suffix() {
    let mut disk = Disk::new();
    let mut log = disk.open();
    disk.append_command(&mut log, 1, set("a", 1));
    disk.append_command(&mut log, 1, set("b", 2));
    disk.append_command(&mut log, 1, set("c", 3));

    // A new leader in term 2 disagrees about index 2 onward.
    let replacement = vec![
        LogEntry { term: 2, index: 2, command: set("b", 99) },
        LogEntry { term: 2, index: 3, command: set("c", 98) },
    ];
    let outcome = disk.try_append(&mut log, 1, 1, &replacement);

    assert_eq!(outcome, AppendOutcome::Accepted { match_index: 3 });
    assert_eq!(log.entry_at(2).unwrap().command, set("b", 99));
    assert_eq!(log.last_term(), 2);

    // And the disk agrees.
    let log = disk.open();
    assert_eq!(log.last_index(), 3);
    assert_eq!(log.entry_at(3).unwrap().command, set("c", 98));
}

#[test]
fn try_append_is_idempotent_for_entries_we_already_have() {
    let mut disk = Disk::new();
    let mut log = disk.open();
    disk.append_command(&mut log, 1, set("a", 1));
    disk.append_command(&mut log, 1, set("b", 2));
    disk.append_command(&mut log, 1, set("c", 3));

    // A delayed retransmission of entries we already hold must not truncate the
    // entries after them: those may already be committed.
    let already_have = vec![LogEntry { term: 1, index: 2, command: set("b", 2) }];
    let outcome = disk.try_append(&mut log, 1, 1, &already_have);

    assert_eq!(outcome, AppendOutcome::Accepted { match_index: 2 });
    assert_eq!(log.last_index(), 3, "entry 3 was not truncated away");
    assert_eq!(log.entry_at(3).unwrap().command, set("c", 3));
}

#[test]
fn try_append_reports_where_to_back_up_to() {
    let mut disk = Disk::new();
    let mut log = disk.open();

    // A follower that is simply behind asks for the next index it needs.
    let outcome = disk.try_append(&mut log, 5, 3, &[]);
    assert_eq!(outcome, AppendOutcome::Conflict { conflict_index: 1 });

    // A follower holding a whole term the leader doesn't have should send the
    // leader back past all of it at once, not one index per round trip.
    for _ in 0..4 {
        disk.append_command(&mut log, 4, set("x", 0));
    }
    let outcome = disk.try_append(&mut log, 4, 9, &[]);
    assert_eq!(
        outcome,
        AppendOutcome::Conflict { conflict_index: 1 },
        "back up past every entry of the disputed term"
    );
}

#[test]
fn election_restriction_compares_logs() {
    let mut disk = Disk::new();
    let mut log = disk.open();
    disk.append_command(&mut log, 1, set("a", 1));
    disk.append_command(&mut log, 2, set("b", 2));
    // Our log: last term 2, last index 2.

    assert!(log.is_up_to_date(2, 2), "an identical log qualifies");
    assert!(log.is_up_to_date(2, 5), "same term, longer log qualifies");
    assert!(log.is_up_to_date(3, 1), "a later term wins even if shorter");
    assert!(!log.is_up_to_date(2, 1), "same term, shorter log is behind");
    assert!(!log.is_up_to_date(1, 9), "an earlier last term loses at any length");
}

#[test]
fn recovery_says_why_it_stopped() {
    let mut disk = Disk::new();
    let mut log = disk.open();
    disk.append_command(&mut log, 5, set("a", 1));
    let end = log.end_offset();
    disk.append_command(&mut log, 4, set("b", 2));
    let (log, stop) = disk.open_with_stop();
    assert_eq!(log.last_index(), 1);
    let reason = StopReason::TermWentBack { term: 4, previous: 5 };
    assert_eq!(stop, Some(LogStop { offset: end, reason }));
    assert_eq!(disk.bytes.len() as u64, end);

    let op = log.frame(b"not an entry").unwrap();
    disk.perform(&op);
    let (_, stop) = disk.open_with_stop();
    assert_eq!(stop.unwrap().reason, StopReason::Undecodable);
}

#[test]
fn entries_are_shipped_in_batches() {
    let mut disk = Disk::new();
    let mut log = disk.open();
    for i in 1..=5u8 {
        disk.append_command(&mut log, 1, set("k", i));
    }
    let shipped = log.entries_from(2, 3);
    assert_eq!(shipped.len(), 3);
    assert_eq!(shipped[0].index, 2);
    assert_eq!(shipped[2].command, set("k", 4));
    assert_eq!(log.entries_from(4, 64).len(), 2);
    assert!(log.entries_from(0, 64).is_empty());
    assert!(log.entries_from(6, 64).is_empty());
    assert_eq!(log.entry_at(0), None);
    assert_eq!(log.entry_at(6), None);
    assert_eq!(log.term_at(6), None);
    assert_eq!(log.next_index(), 6);
    assert_eq!(log.path(), "wal.log");
}

#[test]
fn a_write_the_disk_refused_is_not_in_the_log() {
    let mut disk = Disk::new();
    let mut log = disk.open();
    disk.append_command(&mut log, 1, set("a", 1));
    disk.append_command(&mut log, 1, set("b", 2));
    let refused = log.append_command(1, set("c", 3), &[1, 2, 3], false);
    assert_eq!(refused, Err(WalError::Io));
    assert_eq!(log.last_index(), 2);

    // The cut happens, the first record does not.
    let entries = vec![LogEntry { term: 2, index: 2, command: set("b", 9) }];
    let payloads: Vec<Vec<u8>> = entries.iter().map(encode).collect();
    let ops = log.plan_append(1, 1, &entries, &payloads);
    assert_eq!(ops.len(), 2);
    disk.perform(&ops[0]);
    assert_eq!(log.try_append(1, 1, &entries, &payloads, 1), Err(WalError::Io));
    assert_eq!(log.last_index(), 1);
    assert_eq!(disk.bytes.len() as u64, log.end_offset());
    assert_eq!(disk.open().last_index(), 1);
}

#[test]
fn an_entry_that_is_too_long_stops_the_append() {
    let mut disk = Disk::new();
    let mut log = disk.open();
    let entries = vec![
        LogEntry { term: 1, index: 1, command: set("a", 1) },
        LogEntry { term: 1, index: 2, command: set("b", 2) },
    ];
    let payloads = vec![encode(&entries[0]), vec![0u8; 64 * 1024 * 1024 + 1]];
    let ops = log.plan_append(0, 0, &entries, &payloads);
    assert_eq!(ops.len(), 1);
    disk.perform(&ops[0]);
    assert_eq!(
        log.try_append(0, 0, &entries, &payloads, 1),
        Err(WalError::RecordTooLong { len: 64 * 1024 * 1024 + 1 })
    );
    assert_eq!(log.last_index(), 1, "what came before it is in the log");
}

#[test]
fn taking_the_same_message_twice_changes_nothing() {
    let mut disk = Disk::new();
    let mut log = disk.open();
    let entries = vec![
        LogEntry { term: 1, index: 1, command: set("a", 1) },
        LogEntry { term: 2, index: 2, command: set("b", 2) },
    ];
    let once = disk.try_append(&mut log, 0, 0, &entries);
    let bytes = disk.bytes.clone();
    let twice = disk.try_append(&mut log, 0, 0, &entries);
    assert_eq!(once, twice);
    assert_eq!(disk.bytes, bytes);
    assert_eq!(log.last_index(), 2);
}

#[test]
fn truncating_past_the_end_does_nothing() {
    let mut disk = Disk::new();
    let mut log = disk.open();
    disk.append_command(&mut log, 1, set("a", 1));
    assert_eq!(log.truncation(0), None);
    assert_eq!(log.truncation(2), None);
    assert_eq!(log.truncate_from(2, false), Ok(()));
    assert_eq!(log.truncate_from(1, false), Err(WalError::Io));
    assert_eq!(log.last_index(), 1);
    disk.truncate_from(&mut log, 1);
    assert_eq!(log.last_index(), 0);
    assert_eq!(log.end_offset(), 8);
}

#[test]
fn entries_already_held_are_not_written_again() {
    let mut disk = Disk::new();
    let mut log = disk.open();
    let entries = vec![
        LogEntry { term: 1, index: 1, command: set("a", 1) },
        LogEntry { term: 1, index: 2, command: set("b", 2) },
    ];
    let outcome = disk.try_append(&mut log, 0, 0, &entries);
    assert_eq!(outcome, AppendOutcome::Accepted { match_index: 2 });
    let bytes = disk.bytes.clone();

    // Nothing of them is written, so it does not matter how long they would be.
    let payloads = vec![vec![0u8; 64 * 1024 * 1024 + 1], encode(&entries[1])];
    assert!(log.plan_append(0, 0, &entries, &payloads).is_empty());
    assert_eq!(log.try_append(0, 0, &entries, &payloads, 0), Ok(outcome));
    assert_eq!(disk.bytes, bytes);

    // A refused message is refused again.
    let refused = disk.try_append(&mut log, 2, 9, &[]);
    assert_eq!(refused, AppendOutcome::Conflict { conflict_index: 1 });
    assert_eq!(disk.try_append(&mut log, 2, 9, &[]), refused);
    assert_eq!(disk.bytes, bytes);
}

#[test]
fn whatever_was_written_is_what_is_reopened() {
    let entries = vec![
        LogEntry { term: 2, index: 2, command: set("b", 9) },
        LogEntry { term: 2, index: 3, command: set("c", 8) },
        LogEntry { term: 3, index: 4, command: set("d", 7) },
    ];
    let payloads: Vec<Vec<u8>> = entries.iter().map(encode).collect();
    // The disk gives up after each number of changes in turn.
    for performed in 0..=4usize {
        let mut disk = Disk::new();
        let mut log = disk.open();
        disk.append_command(&mut log, 1, set("a", 1));
        disk.append_command(&mut log, 1, set("b", 2));
        let ops = log.plan_append(1, 1, &entries, &payloads);
        assert_eq!(ops.len(), 4, "a cut and three records");
        for op in &ops[..performed] {
            disk.perform(op);
        }
        let outcome = log.try_append(1, 1, &entries, &payloads, performed);
        assert_eq!(outcome.is_ok(), performed == 4);
        let bytes = disk.bytes.clone();
        let (reopened, stop) = disk.open_with_stop();
        assert_eq!(stop, None);
        assert_eq!(disk.bytes, bytes, "nothing to repair");
        assert_eq!(reopened.last_index(), log.last_index());
        assert_eq!(reopened.end_offset(), log.end_offset());
        for i in 1..=log.last_index() {
            assert_eq!(reopened.entry_at(i), log.entry_at(i));
        }
        assert_eq!(log.entry_at(1).unwrap().command, set("a", 1));
    }
}
