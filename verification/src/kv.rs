//! The state machine the log is applied into.

use crate::message::{Command, CommandView, LogEntryView};
use vstd::hash_map::StringHashMap;
use vstd::prelude::*;

verus! {

/// An in-memory map, and nothing else. It is deliberately *not* durable: the
/// log is the durable thing, and this is only ever a replay of the log's
/// committed prefix.
pub struct KvStore {
    db: StringHashMap<Vec<u8>>,
}

/// What one command does to the map. Only a write changes anything; reads and
/// Raft messages are ignored, so a log that carries them replays harmlessly.
pub open spec fn applied(
    db: Map<Seq<char>, Seq<u8>>,
    command: CommandView,
) -> Map<Seq<char>, Seq<u8>> {
    match command {
        CommandView::Put { key, value } => db.insert(key, value),
        _ => db,
    }
}

/// What the entries do to the map, applied in order.
pub open spec fn replayed_onto(
    db: Map<Seq<char>, Seq<u8>>,
    entries: Seq<LogEntryView>,
) -> Map<Seq<char>, Seq<u8>>
    decreases entries.len(),
{
    if entries.len() == 0 {
        db
    } else {
        applied(replayed_onto(db, entries.drop_last()), entries.last().command)
    }
}

/// The map that applying the entries to an empty map, in order, leaves.
pub open spec fn replayed(entries: Seq<LogEntryView>) -> Map<Seq<char>, Seq<u8>> {
    replayed_onto(Map::empty(), entries)
}

impl View for KvStore {
    type V = Map<Seq<char>, Seq<u8>>;

    closed spec fn view(&self) -> Map<Seq<char>, Seq<u8>> {
        self.db@.map_values(|v: Vec<u8>| v@)
    }
}

impl KvStore {
    /// There are finitely many keys.
    #[verifier::type_invariant]
    closed spec fn is_finite(self) -> bool {
        self.db@.dom().finite()
    }

    pub fn new() -> (store: Self)
        ensures
            store@ == Map::<Seq<char>, Seq<u8>>::empty(),
            store@.dom().finite(),
    {
        let store = KvStore { db: StringHashMap::new() };
        assert(store@ =~= Map::empty());
        store
    }

    /// Applies a committed command.
    pub fn apply(&mut self, command: &Command)
        ensures
            final(self)@ == applied(old(self)@, command@),
            old(self)@.dom().finite(),
            final(self)@.dom().finite(),
    {
        proof {
            use_type_invariant(&*self);
            assert(self@.dom() =~= self.db@.dom());
        }
        if let Command::Put { key, value } = command {
            let mut db: StringHashMap<Vec<u8>> = StringHashMap::new();
            std::mem::swap(&mut db, &mut self.db);
            db.insert(key.clone(), value.clone());
            self.db = db;
            assert(self@ =~= applied(old(self)@, command@));
        }
    }

    pub fn get(&self, key: &str) -> (value: Option<Vec<u8>>)
        ensures
            match value {
                Some(v) => self@.contains_key(key@) && self@[key@] == v@,
                None => !self@.contains_key(key@),
            },
    {
        match self.db.get(key) {
            Some(value) => Some(value.clone()),
            None => None,
        }
    }

    pub fn len(&self) -> (n: usize)
        ensures
            n == self@.len(),
            self@.dom().finite(),
    {
        proof {
            use_type_invariant(self);
        }
        assert(self@.dom() =~= self.db@.dom());
        self.db.len()
    }

    pub fn is_empty(&self) -> (empty: bool)
        ensures
            empty == (self@ == Map::<Seq<char>, Seq<u8>>::empty()),
    {
        assert(self@.dom() =~= self.db@.dom());
        assert(self.db@.is_empty() ==> self@ =~= Map::<Seq<char>, Seq<u8>>::empty());
        self.db.is_empty()
    }
}

impl Default for KvStore {
    fn default() -> (store: Self)
        ensures
            store@ == Map::<Seq<char>, Seq<u8>>::empty(),
    {
        KvStore::new()
    }
}

/// A write puts its value at its key and leaves every other key alone; any other command
/// leaves all of them alone.
pub proof fn law_write_changes_its_own_key(
    db: Map<Seq<char>, Seq<u8>>,
    key: Seq<char>,
    value: Seq<u8>,
    other: Seq<char>,
    command: CommandView,
)
    ensures
        applied(db, CommandView::Put { key, value }).contains_key(key),
        applied(db, CommandView::Put { key, value })[key] == value,
        other != key ==> {
            let after = applied(db, CommandView::Put { key, value });
            &&& after.contains_key(other) <==> db.contains_key(other)
            &&& db.contains_key(other) ==> after[other] == db[other]
        },
        !(command is Put) ==> applied(db, command) == db,
{
}

/// Replaying one entry more is replaying the others and then that one, and with no entry
/// there is nothing to replay.
pub proof fn law_replay_goes_entry_by_entry(
    db: Map<Seq<char>, Seq<u8>>,
    entries: Seq<LogEntryView>,
    entry: LogEntryView,
)
    ensures
        replayed_onto(db, entries.push(entry)) == (match entry.command {
            CommandView::Put { key, value } => replayed_onto(db, entries).insert(key, value),
            _ => replayed_onto(db, entries),
        }),
        replayed_onto(db, seq![]) == db,
        replayed(seq![]) == Map::<Seq<char>, Seq<u8>>::empty(),
{
    assert(entries.push(entry).drop_last() =~= entries);
}

/// Replaying in two parts is replaying in one.
pub proof fn law_replay_composes(
    db: Map<Seq<char>, Seq<u8>>,
    a: Seq<LogEntryView>,
    b: Seq<LogEntryView>,
)
    ensures
        replayed_onto(db, a + b) == replayed_onto(replayed_onto(db, a), b),
    decreases b.len(),
{
    if b.len() == 0 {
        assert(a + b =~= a);
    } else {
        law_replay_composes(db, a, b.drop_last());
        assert((a + b).drop_last() =~= a + b.drop_last());
        assert((a + b).last() == b.last());
    }
}

/// The last write for a key wins: after a replay, a key holds what the last entry
/// that writes it put there, and a key that no entry writes is not there.
pub proof fn law_last_write_wins(entries: Seq<LogEntryView>, key: Seq<char>)
    ensures
        replayed(entries).contains_key(key) <==> exists|i: int|
            0 <= i < entries.len() && #[trigger] writes(entries[i].command, key),
        forall|i: int|
            0 <= i < entries.len() && #[trigger] writes(entries[i].command, key) && (forall|j: int|
                i < j < entries.len() ==> !#[trigger] writes(entries[j].command, key))
                ==> replayed(entries)[key] == entries[i].command->value,
    decreases entries.len(),
{
    if entries.len() > 0 {
        let rest = entries.drop_last();
        let last = entries.last();
        law_last_write_wins(rest, key);
        if writes(last.command, key) {
            assert(writes(entries[entries.len() - 1].command, key));
        } else {
            assert(replayed(entries).contains_key(key) <==> replayed(rest).contains_key(key));
            if replayed(rest).contains_key(key) {
                let i = choose|i: int|
                    0 <= i < rest.len() && #[trigger] writes(rest[i].command, key);
                assert(writes(entries[i].command, key));
            }
            if exists|i: int| 0 <= i < entries.len() && #[trigger] writes(entries[i].command, key) {
                let i = choose|i: int|
                    0 <= i < entries.len() && #[trigger] writes(entries[i].command, key);
                assert(writes(rest[i].command, key));
            }
        }
        assert forall|i: int|
            0 <= i < entries.len() && #[trigger] writes(entries[i].command, key) && (forall|j: int|
                i < j < entries.len() ==> !#[trigger] writes(
                    entries[j].command,
                    key,
                )) implies replayed(entries)[key] == entries[i].command->value by {
            if i < rest.len() {
                assert(!writes(entries[entries.len() - 1].command, key));
                assert(writes(rest[i].command, key));
                assert forall|j: int| i < j < rest.len() implies !#[trigger] writes(
                    rest[j].command,
                    key,
                ) by {
                    assert(!writes(entries[j].command, key));
                }
            }
        }
    }
}

/// Whether the command writes `key`.
pub open spec fn writes(command: CommandView, key: Seq<char>) -> bool {
    command matches CommandView::Put { key: k, .. } && k == key
}

} // verus!
