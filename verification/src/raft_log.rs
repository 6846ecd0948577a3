//! The replicated log: the write-ahead log, read as a sequence of entries.

use crate::message::{entries_view, Command, CommandView, LogEntry, LogEntryView};
use crate::wal::{
    append_op,
    fits_record,
    frame,
    layout_ok,
    length_error,
    ops_view,
    record_offsets,
    records_view,
    FileOp,
    FileOpView,
    Wal,
    WalError,
    WalRecord,
    RECORD_HEADER_LEN,
    WAL_HEADER_LEN,
};
use vstd::prelude::*;

verus! {

/// What a follower did with an `AppendEntries`.
#[derive(Debug, Clone, Copy, PartialEq, Eq, Structural)]
pub enum AppendOutcome {
    /// The entries are in the log; `match_index` is the last index held.
    Accepted { match_index: u64 },
    /// The log doesn't match at `prev_log_index`. `conflict_index` is where the
    /// leader should try again, so it can back up by a whole term at a time
    /// instead of one index per round trip.
    Conflict { conflict_index: u64 },
}

/// Why recovery dropped a record and everything after it.
#[derive(Debug, Clone, Copy, PartialEq, Eq, Structural)]
pub enum StopReason {
    /// The payload is not an entry.
    Undecodable,
    /// The entry is not the next one.
    WrongIndex { expected: u64, found: u64 },
    /// The entry's term is older than that of the entry before it.
    TermWentBack { term: u64, previous: u64 },
}

/// Where recovery stopped, and why.
#[derive(Debug, Clone, Copy, PartialEq, Eq, Structural)]
pub struct LogStop {
    pub offset: u64,
    pub reason: StopReason,
}

/// The replicated log. Entry `i` of the view has index `i + 1`; index 0 is the
/// "empty log" sentinel.
pub struct RaftLog {
    wal: Wal,
    entries: Vec<LogEntry>,
    /// Byte offset of each entry's record, parallel to `entries`. This is what
    /// lets a truncation turn an index back into a file position.
    offsets: Vec<u64>,
}

/// The term at `index`: 0 for the index-0 sentinel, the entry's term where there
/// is an entry.
pub open spec fn term_at(log: Seq<LogEntryView>, index: int) -> Option<u64> {
    if index == 0 {
        Some(0u64)
    } else if 1 <= index <= log.len() {
        Some(log[index - 1].term)
    } else {
        None
    }
}

/// The term of the last entry, 0 for an empty log.
pub open spec fn last_term(log: Seq<LogEntryView>) -> u64 {
    if log.len() == 0 {
        0
    } else {
        log.last().term
    }
}

/// Indexes run 1, 2, 3, … with no gaps, and terms never decrease.
pub open spec fn consistent(log: Seq<LogEntryView>) -> bool {
    &&& forall|i: int| 0 <= i < log.len() ==> (#[trigger] log[i]).index == i + 1
    &&& forall|i: int, j: int|
        0 <= i <= j < log.len() ==> (#[trigger] log[i]).term <= (#[trigger] log[j]).term
}

/// Decoded payloads as mathematical values.
pub open spec fn decoded_view(decoded: Seq<Option<LogEntry>>) -> Seq<Option<LogEntryView>> {
    decoded.map_values(
        |d: Option<LogEntry>|
            match d {
                Some(e) => Some(e@),
                None => None::<LogEntryView>,
            },
    )
}

/// Whether the record at position `i` carries the entry that belongs there,
/// given that the one before it does.
pub open spec fn entry_belongs(decoded: Seq<Option<LogEntryView>>, i: int) -> bool {
    decoded[i] matches Some(e) && {
        &&& e.index == i + 1
        &&& i > 0 ==> (decoded[i - 1] matches Some(previous) && previous.term <= e.term)
    }
}

/// `n` entries are recovered: each belongs where it is, and the next, if there is
/// one, does not.
pub open spec fn is_recovered_len(decoded: Seq<Option<LogEntryView>>, n: int) -> bool {
    &&& 0 <= n <= decoded.len()
    &&& forall|i: int| 0 <= i < n ==> #[trigger] entry_belongs(decoded, i)
    &&& n < decoded.len() ==> !entry_belongs(decoded, n)
}

/// Why the record at position `i` does not carry the entry that belongs there.
pub open spec fn stop_reason(decoded: Seq<Option<LogEntryView>>, i: int) -> StopReason {
    match decoded[i] {
        None => StopReason::Undecodable,
        Some(e) => if e.index != i + 1 {
            StopReason::WrongIndex { expected: (i + 1) as u64, found: e.index }
        } else {
            StopReason::TermWentBack { term: e.term, previous: decoded[i - 1]->0.term }
        },
    }
}

/// Whether a log that ends at `(last_term, last_index)` is at least as up to
/// date as one that ends at `(than_term, than_index)`: a later last term wins,
/// and on a tie the longer log wins.
pub open spec fn at_least_as_up_to_date(
    last_term: u64,
    last_index: u64,
    than_term: u64,
    than_index: u64,
) -> bool {
    last_term > than_term || (last_term == than_term && last_index >= than_index)
}

/// The first position from `i` on whose entry is not in the log already.
pub open spec fn first_new(log: Seq<LogEntryView>, entries: Seq<LogEntryView>, i: int) -> int
    decreases entries.len() - i,
{
    if 0 <= i < entries.len() && term_at(log, entries[i].index as int) == Some(entries[i].term) {
        first_new(log, entries, i + 1)
    } else {
        i
    }
}

/// How much of the log stays when `entries` arrive: all of it, unless the first
/// entry that is not in the log already disagrees with one that is.
pub open spec fn kept_len(log: Seq<LogEntryView>, entries: Seq<LogEntryView>) -> int {
    let n = first_new(log, entries, 0);
    if n < entries.len() && 1 <= entries[n].index <= log.len() {
        entries[n].index - 1
    } else {
        log.len() as int
    }
}

/// The first index of the run of entries that ends at `index` and shares its
/// term.
pub open spec fn run_start(log: Seq<LogEntryView>, index: int) -> int
    decreases index,
{
    if index > 1 && term_at(log, index - 1) == term_at(log, index) {
        run_start(log, index - 1)
    } else {
        index
    }
}

/// Whether the log agrees with the leader's just before the entries it sends.
pub open spec fn matches_at(log: Seq<LogEntryView>, prev_index: int, prev_term: u64) -> bool {
    term_at(log, prev_index) == Some(prev_term)
}

/// Where the leader should try again, when the log does not match.
pub open spec fn conflict_index(log: Seq<LogEntryView>, prev_index: int) -> int {
    if prev_index > log.len() {
        log.len() as int + 1
    } else {
        run_start(log, prev_index)
    }
}

/// Payloads as mathematical values.
pub open spec fn payloads_view(payloads: Seq<Vec<u8>>) -> Seq<Seq<u8>> {
    payloads.map_values(|p: Vec<u8>| p@)
}

/// The bytes that the records of `payloads[from..to]` take.
pub open spec fn framed_len(payloads: Seq<Seq<u8>>, from: int, to: int) -> int
    decreases to - from,
{
    if to <= from {
        0
    } else {
        framed_len(payloads, from, to - 1) + RECORD_HEADER_LEN + payloads[to - 1].len()
    }
}

/// The first position from `i` on whose payload is too long for a record.
pub open spec fn first_too_long(payloads: Seq<Seq<u8>>, i: int) -> int
    decreases payloads.len() - i,
{
    if 0 <= i < payloads.len() && fits_record(payloads[i].len()) {
        first_too_long(payloads, i + 1)
    } else {
        i
    }
}

/// What the log is: its entries, where their records are, and where the next
/// record goes.
#[verifier::ext_equal]
pub struct LogState {
    pub entries: Seq<LogEntryView>,
    pub offsets: Seq<int>,
    pub end: int,
}

impl LogState {
    /// Everything before the entry at position `n`.
    pub open spec fn cut(self, n: int) -> LogState {
        if n < self.entries.len() {
            LogState {
                entries: self.entries.take(n),
                offsets: self.offsets.take(n),
                end: self.offsets[n],
            }
        } else {
            self
        }
    }

    /// One entry more, whose payload takes `len` bytes.
    pub open spec fn grown(self, entry: LogEntryView, len: nat) -> LogState {
        LogState {
            entries: self.entries.push(entry),
            offsets: self.offsets.push(self.end),
            end: self.end + RECORD_HEADER_LEN + len,
        }
    }

    /// `entries[from..to]` more, with these payloads.
    pub open spec fn grown_by(
        self,
        entries: Seq<LogEntryView>,
        payloads: Seq<Seq<u8>>,
        from: int,
        to: int,
    ) -> LogState
        decreases to - from,
    {
        if to <= from {
            self
        } else {
            self.grown_by(entries, payloads, from, to - 1).grown(
                entries[to - 1],
                payloads[to - 1].len(),
            )
        }
    }
}

/// Whether a log that ends at `(last_term, last_index)` is at least as up to date as
/// `log`.
pub open spec fn reaches_as_far(
    log: Seq<LogEntryView>,
    other_last_term: u64,
    other_last_index: u64,
) -> bool {
    at_least_as_up_to_date(other_last_term, other_last_index, last_term(log), log.len() as u64)
}

/// The entry that a command of `term` becomes at the end of the log.
pub open spec fn entry_after(
    log: Seq<LogEntryView>,
    term: u64,
    command: CommandView,
) -> LogEntryView {
    LogEntryView { term, index: (log.len() + 1) as u64, command }
}

/// The file change that removes the entries from `index` on, if there are any.
pub open spec fn truncation_op(log: LogState, index: int) -> Option<FileOpView> {
    if 1 <= index <= log.entries.len() {
        Some(FileOpView::SetLen { len: log.offsets[index - 1] })
    } else {
        None
    }
}

/// Where the log ends once its first `n` records are recovered: where the next one
/// starts, if there is one, so that it is overwritten.
pub open spec fn recovered_end(offsets: Seq<int>, end: int, n: int) -> int {
    if n < offsets.len() {
        offsets[n]
    } else {
        end
    }
}

/// At most `max` entries of the log, from `index` on.
pub open spec fn piece(log: Seq<LogEntryView>, index: int, max: int) -> Seq<LogEntryView> {
    if index == 0 || index > log.len() {
        Seq::empty()
    } else if index - 1 + max < log.len() {
        log.subrange(index - 1, index - 1 + max)
    } else {
        log.skip(index - 1)
    }
}

/// What comes of a command whose payload takes `len` bytes, where `written` says
/// whether its record reached the disk: the index it is at, or an error.
pub open spec fn command_outcome(log: LogState, len: nat, written: bool) -> Result<u64, WalError> {
    if !fits_record(len) {
        Err(length_error(len))
    } else if !written {
        Err(WalError::Io)
    } else {
        Ok((log.entries.len() + 1) as u64)
    }
}

/// The log after such a command.
pub open spec fn log_with_command(
    log: LogState,
    term: u64,
    command: CommandView,
    len: nat,
    written: bool,
) -> LogState {
    match command_outcome(log, len, written) {
        Ok(index) => log.grown(LogEntryView { term, index, command }, len),
        Err(_) => log,
    }
}

/// The log without its entries from `index` on, where `performed` says whether the file
/// was cut.
pub open spec fn log_truncated(log: LogState, index: int, performed: bool) -> LogState {
    if 1 <= index <= log.entries.len() && performed {
        log.cut(index - 1)
    } else {
        log
    }
}

/// The file changes that write the records of `payloads[from..to]`, the first of
/// them at `at`.
pub open spec fn record_ops(payloads: Seq<Seq<u8>>, from: int, to: int, at: int) -> Seq<FileOpView>
    decreases to - from,
{
    if to <= from {
        Seq::empty()
    } else {
        record_ops(payloads, from, to - 1, at).push(
            FileOpView::WriteAt {
                offset: at + framed_len(payloads, from, to - 1),
                bytes: frame(payloads[to - 1]),
            },
        )
    }
}

/// The file changes that take `entries` into the log: a cut if something has
/// to go, then one record after another, up to the first that is too long.
pub open spec fn append_ops(
    log: LogState,
    entries: Seq<LogEntryView>,
    payloads: Seq<Seq<u8>>,
) -> Seq<FileOpView> {
    let from = first_new(log.entries, entries, 0);
    let base = log.cut(kept_len(log.entries, entries));
    let cut = if base.entries.len() < log.entries.len() {
        seq![FileOpView::SetLen { len: base.end }]
    } else {
        Seq::empty()
    };
    cut + record_ops(payloads, from, first_too_long(payloads, from), base.end)
}

/// How many file changes that takes.
pub open spec fn append_op_count(
    log: LogState,
    entries: Seq<LogEntryView>,
    payloads: Seq<Seq<u8>>,
) -> int {
    let from = first_new(log.entries, entries, 0);
    let cuts: int = if kept_len(log.entries, entries) < log.entries.len() {
        1
    } else {
        0
    };
    cuts + first_too_long(payloads, from) - from
}

/// The log once the first `performed` of those changes have been made.
pub open spec fn after_append(
    log: LogState,
    entries: Seq<LogEntryView>,
    payloads: Seq<Seq<u8>>,
    performed: int,
) -> LogState {
    let from = first_new(log.entries, entries, 0);
    let base = log.cut(kept_len(log.entries, entries));
    let cuts: int = if base.entries.len() < log.entries.len() {
        1
    } else {
        0
    };
    if performed < cuts {
        log
    } else {
        base.grown_by(entries, payloads, from, from + performed - cuts)
    }
}

/// Whether all that has to be written for the entries was.
pub open spec fn all_written(
    log: LogState,
    entries: Seq<LogEntryView>,
    payloads: Seq<Seq<u8>>,
    performed: int,
) -> bool {
    &&& performed == append_op_count(log, entries, payloads)
    &&& first_too_long(payloads, first_new(log.entries, entries, 0)) == payloads.len()
}

/// The file changes that a message with these entries asks for: none if the log does
/// not match just before them.
pub open spec fn planned_ops(
    log: LogState,
    prev_index: int,
    prev_term: u64,
    entries: Seq<LogEntryView>,
    payloads: Seq<Seq<u8>>,
) -> Seq<FileOpView> {
    if matches_at(log.entries, prev_index, prev_term) {
        append_ops(log, entries, payloads)
    } else {
        Seq::empty()
    }
}

/// The log after such a message, of whose changes the first `performed` were made.
pub open spec fn log_after(
    log: LogState,
    prev_index: int,
    prev_term: u64,
    entries: Seq<LogEntryView>,
    payloads: Seq<Seq<u8>>,
    performed: int,
) -> LogState {
    if matches_at(log.entries, prev_index, prev_term) {
        after_append(log, entries, payloads, performed)
    } else {
        log
    }
}

/// What came of such a message: a conflict if the log does not match, an error if a
/// change failed or a payload is too long, and else acceptance of all entries.
pub open spec fn append_outcome(
    log: LogState,
    prev_index: int,
    prev_term: u64,
    entries: Seq<LogEntryView>,
    payloads: Seq<Seq<u8>>,
    performed: int,
) -> Result<AppendOutcome, WalError> {
    let stop = first_too_long(payloads, first_new(log.entries, entries, 0));
    if !matches_at(log.entries, prev_index, prev_term) {
        Ok(
            AppendOutcome::Conflict {
                conflict_index: conflict_index(log.entries, prev_index) as u64,
            },
        )
    } else if performed < append_op_count(log, entries, payloads) {
        Err(WalError::Io)
    } else if stop < entries.len() {
        Err(length_error(payloads[stop].len()))
    } else {
        Ok(AppendOutcome::Accepted { match_index: (prev_index + entries.len()) as u64 })
    }
}

impl RaftLog {
    pub closed spec fn view(&self) -> Seq<LogEntryView> {
        entries_view(self.entries@)
    }

    /// The byte offset of each entry's record.
    pub closed spec fn spec_offsets(&self) -> Seq<int> {
        self.offsets@.map_values(|o: u64| o as int)
    }

    /// Where the next record will be written.
    pub closed spec fn spec_end(&self) -> int {
        self.wal.spec_end()
    }

    /// The path of the log file.
    pub closed spec fn spec_path(&self) -> Seq<char> {
        self.wal.spec_path()
    }

    /// One record per entry, none overlapping another.
    pub open spec fn wf(&self) -> bool {
        &&& self.spec_offsets().len() == self@.len()
        &&& layout_ok(self.spec_offsets(), self.spec_end())
        &&& self.spec_end() <= u64::MAX
    }

    /// Entries, offsets and end in one.
    pub open spec fn state(&self) -> LogState {
        LogState { entries: self@, offsets: self.spec_offsets(), end: self.spec_end() }
    }

    proof fn lemma_len(&self)
        requires
            self.wf(),
        ensures
            self@.len() == self.entries@.len(),
            self@.len() == self.offsets@.len(),
            self@.len() < 0x2000_0000_0000_0000,
    {
        if self@.len() > 0 {
            let last = self@.len() - 1;
            assert(self.spec_offsets()[last] >= WAL_HEADER_LEN + RECORD_HEADER_LEN * last);
        }
    }

    /// Reads the records of a log file as entries. `decoded` holds what each
    /// record's payload decodes to, `None` where it does not decode.
    ///
    /// On top of the record-level checksum, this validates that indexes run
    /// 1, 2, 3, … with no gaps and that terms never decrease, truncating at the
    /// first entry that breaks either rule. That check is not redundant with the
    /// checksum: if we truncate a diverged suffix and crash before the
    /// replacement entry is written, or write a shorter one that doesn't cover
    /// all the old bytes, the leftover records are *intact*, correct checksum and
    /// all. Only their indexes give them away.
    ///
    /// Where recovery stopped early, the caller must cut the file at the offset
    /// given (see [`Wal::cut`]) before using the log.
    pub fn open(wal: Wal, records: &[WalRecord], decoded: &[Option<LogEntry>]) -> (opened: (
        RaftLog,
        Option<LogStop>,
    ))
        requires
            records@.len() == decoded@.len(),
            layout_ok(record_offsets(records_view(records@)), wal.spec_end()),
        ensures
            opened.0.wf(),
            consistent(opened.0@),
            opened.0.spec_path() == wal.spec_path(),
            is_recovered_len(decoded_view(decoded@), opened.0@.len() as int),
            forall|i: int|
                0 <= i < opened.0@.len() ==> decoded_view(decoded@)[i] == Some(
                    #[trigger] opened.0@[i],
                ),
            forall|i: int|
                0 <= i < opened.0@.len() ==> #[trigger] opened.0.spec_offsets()[i]
                    == records@[i].offset,
            match opened.1 {
                None => opened.0@.len() == decoded@.len(),
                Some(stop) => {
                    &&& opened.0@.len() < decoded@.len()
                    &&& stop.reason == stop_reason(
                        decoded_view(decoded@),
                        opened.0@.len() as int,
                    )
                    &&& stop.offset == records@[opened.0@.len() as int].offset
                },
            },
            opened.0.spec_end() == recovered_end(
                record_offsets(records_view(records@)),
                wal.spec_end(),
                opened.0@.len() as int,
            ),
    {
        let ghost all = decoded_view(decoded@);
        let ghost offsets = record_offsets(records_view(records@));
        let ghost wal_end = wal.spec_end();
        let ghost wal_path = wal.spec_path();
        let mut log = RaftLog { wal, entries: Vec::new(), offsets: Vec::new() };
        let mut stop: Option<LogStop> = None;
        let mut i: usize = 0;
        while i < records.len() && stop.is_none()
            invariant
                records@.len() == decoded@.len(),
                all == decoded_view(decoded@),
                offsets == record_offsets(records_view(records@)),
                layout_ok(offsets, wal_end),
                i <= records@.len(),
                log@.len() == i,
                log.entries@.len() == i,
                log.offsets@.len() == i,
                log.wal.spec_end() == wal_end,
                log.wal.spec_path() == wal_path,
                forall|k: int| 0 <= k < i ==> #[trigger] entry_belongs(all, k),
                forall|k: int| 0 <= k < i ==> all[k] == Some(#[trigger] log@[k]),
                forall|k: int|
                    0 <= k < i ==> #[trigger] log.offsets@[k] == records@[k].offset,
                match stop {
                    None => true,
                    Some(s) => {
                        &&& i < records@.len()
                        &&& !entry_belongs(all, i as int)
                        &&& s.reason == stop_reason(all, i as int)
                        &&& s.offset == records@[i as int].offset
                    },
                },
            decreases records@.len() - i + (if stop is None { 1int } else { 0 }),
        {
            proof {
                assert(offsets[i as int] == records@[i as int].offset);
            }
            let offset: u64 = records[i].offset;
            match &decoded[i] {
                None => {
                    stop = Some(LogStop { offset, reason: StopReason::Undecodable });
                },
                Some(entry) => {
                    proof {
                        assert(all[i as int] == Some(entry@));
                        if i > 0 {
                            assert(log@[i - 1] == log.entries@[i - 1]@);
                        }
                    }
                    let expected: u64 = i as u64 + 1;
                    if entry.index != expected {
                        stop = Some(
                            LogStop {
                                offset,
                                reason: StopReason::WrongIndex { expected, found: entry.index },
                            },
                        );
                    } else if i > 0 && entry.term < log.entries[i - 1].term {
                        let previous: u64 = log.entries[i - 1].term;
                        stop = Some(
                            LogStop {
                                offset,
                                reason: StopReason::TermWentBack { term: entry.term, previous },
                            },
                        );
                    } else {
                        let ghost before = log@;
                        let copy = entry.clone();
                        log.entries.push(copy);
                        log.offsets.push(offset);
                        assert(log@ =~= before.push(entry@));
                        i += 1;
                    }
                },
            }
        }
        if let Some(s) = stop {
            let _ = log.wal.truncate_from(s.offset, true);
        }
        proof {
            log.wal.lemma_end();
            lemma_belonging_is_consistent(all, log@);
            assert(log.spec_offsets() =~= offsets.take(i as int));
            if i < records@.len() {
                assert(offsets[i as int] == records@[i as int].offset);
                lemma_layout_take(offsets, wal_end, i as int);
            } else {
                assert(offsets.take(i as int) =~= offsets);
            }
        }
        (log, stop)
    }

    pub fn last_index(&self) -> (index: u64)
        requires
            self.wf(),
        ensures
            index == self@.len(),
    {
        proof {
            self.lemma_len();
        }
        self.entries.len() as u64
    }

    /// The index that the next entry will get.
    pub fn next_index(&self) -> (index: u64)
        requires
            self.wf(),
        ensures
            index == self@.len() + 1,
    {
        proof {
            self.lemma_len();
        }
        self.last_index() + 1
    }

    pub fn last_term(&self) -> (term: u64)
        requires
            self.wf(),
        ensures
            term == last_term(self@),
    {
        let n: usize = self.entries.len();
        if n == 0 {
            0
        } else {
            self.entries[n - 1].term
        }
    }

    /// The term of the entry at `index`, or `Some(0)` for the index-0 sentinel.
    pub fn term_at(&self, index: u64) -> (term: Option<u64>)
        requires
            self.wf(),
        ensures
            term == term_at(self@, index as int),
    {
        if index == 0 {
            return Some(0);
        }
        match self.entry_at(index) {
            Some(entry) => Some(entry.term),
            None => None,
        }
    }

    pub fn entry_at(&self, index: u64) -> (entry: Option<&LogEntry>)
        requires
            self.wf(),
        ensures
            match entry {
                Some(e) => 1 <= index <= self@.len() && e@ == self@[index - 1],
                None => index == 0 || index > self@.len(),
            },
    {
        proof {
            self.lemma_len();
        }
        let len: usize = self.entries.len();
        if index == 0 || index > len as u64 {
            return None;
        }
        Some(&self.entries[(index - 1) as usize])
    }

    /// Up to `max` entries starting at `index`, for a leader to ship to a peer.
    pub fn entries_from(&self, index: u64, max: usize) -> (entries: Vec<LogEntry>)
        requires
            self.wf(),
        ensures
            entries_view(entries@) == piece(self@, index as int, max as int),
    {
        let mut shipped: Vec<LogEntry> = Vec::new();
        assert(entries_view(shipped@) =~= Seq::empty());
        if index == 0 || index > self.last_index() {
            return shipped;
        }
        proof {
            self.lemma_len();
        }
        let start: usize = (index - 1) as usize;
        let end: usize = if max < self.entries.len() - start {
            start + max
        } else {
            self.entries.len()
        };
        let mut i: usize = start;
        while i < end
            invariant
                start <= i <= end <= self.entries@.len(),
                self@.len() == self.entries@.len(),
                entries_view(shipped@) == self@.subrange(start as int, i as int),
            decreases end - i,
        {
            let ghost before = entries_view(shipped@);
            let entry = self.entries[i].clone();
            shipped.push(entry);
            assert(entries_view(shipped@) =~= before.push(entry@));
            assert(self@.subrange(start as int, i + 1) =~= before.push(self@[i as int]));
            i += 1;
        }
        assert(self@.skip(start as int) =~= self@.subrange(start as int, self@.len() as int));
        shipped
    }

    /// Is `other` at least as up to date as this log? Raft's election
    /// restriction: without it, a node missing committed entries could win an
    /// election and overwrite them, which would make an acknowledged write a lie.
    pub fn is_up_to_date(&self, other_last_term: u64, other_last_index: u64) -> (ok: bool)
        requires
            self.wf(),
        ensures
            ok == reaches_as_far(self@, other_last_term, other_last_index),
    {
        log_is_up_to_date(
            other_last_term,
            other_last_index,
            self.last_term(),
            self.last_index(),
        )
    }
}

impl RaftLog {
    /// The path of the log file.
    pub fn path(&self) -> (path: &str)
        ensures
            path@ == self.spec_path(),
    {
        self.wal.path()
    }

    /// Offset one past the last record: where the next one will land.
    pub fn end_offset(&self) -> (end: u64)
        ensures
            end == self.spec_end(),
    {
        self.wal.end_offset()
    }

    /// The entry that a new command would become.
    pub fn next_entry(&self, term: u64, command: Command) -> (entry: LogEntry)
        requires
            self.wf(),
        ensures
            entry@ == entry_after(self@, term, command@),
    {
        proof {
            self.lemma_len();
        }
        LogEntry { term, index: self.last_index() + 1, command }
    }

    /// The file change that appends an entry whose encoding is `payload`.
    pub fn frame(&self, payload: &[u8]) -> (op: Result<FileOp, WalError>)
        ensures
            match op {
                Ok(op) => append_op(self.spec_end(), payload@) == Ok::<FileOpView, WalError>(op@),
                Err(e) => append_op(self.spec_end(), payload@) == Err::<FileOpView, WalError>(e),
            },
    {
        self.wal.frame(payload)
    }

    /// Appends a new command as the leader, returning the index it landed at.
    /// `payload` is the encoding of the entry that [`RaftLog::next_entry`] gives,
    /// and `written` says whether the change that [`RaftLog::frame`] gives for it
    /// reached the disk.
    pub fn append_command(
        &mut self,
        term: u64,
        command: Command,
        payload: &[u8],
        written: bool,
    ) -> (index: Result<u64, WalError>)
        requires
            old(self).wf(),
            fits_record(payload@.len()) ==> old(self).spec_end() + RECORD_HEADER_LEN
                + payload@.len() <= u64::MAX,
        ensures
            final(self).wf(),
            final(self).spec_path() == old(self).spec_path(),
            index == command_outcome(old(self).state(), payload@.len(), written),
            index matches Ok(at) ==> at == old(self)@.len() + 1,
            final(self).state() == log_with_command(
                old(self).state(),
                term,
                command@,
                payload@.len(),
                written,
            ),
    {
        proof {
            self.lemma_len();
        }
        let index: u64 = self.last_index() + 1;
        let entry = LogEntry { term, index, command };
        match self.append_one(entry, payload, written) {
            Ok(()) => Ok(index),
            Err(e) => Err(e),
        }
    }

    /// Appends one entry, whatever its index says.
    fn append_one(&mut self, entry: LogEntry, payload: &[u8], written: bool) -> (done: Result<
        (),
        WalError,
    >)
        requires
            old(self).wf(),
            fits_record(payload@.len()) ==> old(self).spec_end() + RECORD_HEADER_LEN
                + payload@.len() <= u64::MAX,
        ensures
            final(self).wf(),
            final(self).spec_path() == old(self).spec_path(),
            match done {
                Ok(()) => {
                    &&& fits_record(payload@.len())
                    &&& written
                    &&& final(self).state() == old(self).state().grown(entry@, payload@.len())
                },
                Err(e) => {
                    &&& final(self).state() == old(self).state()
                    &&& if fits_record(payload@.len()) {
                        !written && e == WalError::Io
                    } else {
                        e == length_error(payload@.len())
                    }
                },
            },
    {
        let offset: u64 = match self.wal.append(payload, written) {
            Ok(offset) => offset,
            Err(e) => {
                return Err(e);
            },
        };
        self.entries.push(entry);
        self.offsets.push(offset);
        proof {
            assert(self@ =~= old(self)@.push(entry@));
            assert(self.spec_offsets() =~= old(self).spec_offsets().push(offset as int));
            lemma_layout_push(
                old(self).spec_offsets(),
                old(self).spec_end(),
                self.spec_end(),
            );
        }
        Ok(())
    }

    /// The file change that drops every entry from `index` on, if there is
    /// anything to drop.
    pub fn truncation(&self, index: u64) -> (op: Option<FileOp>)
        requires
            self.wf(),
        ensures
            match op {
                Some(op) => truncation_op(self.state(), index as int) == Some(op@),
                None => truncation_op(self.state(), index as int) is None,
            },
    {
        proof {
            self.lemma_len();
        }
        let len: usize = self.entries.len();
        if index == 0 || index > len as u64 {
            return None;
        }
        Some(Wal::cut(self.offsets[(index - 1) as usize]))
    }

    /// Drops every entry from `index` on. `performed` says whether the change
    /// that [`RaftLog::truncation`] gives reached the disk.
    pub fn truncate_from(&mut self, index: u64, performed: bool) -> (done: Result<(), WalError>)
        requires
            old(self).wf(),
        ensures
            final(self).wf(),
            final(self).spec_path() == old(self).spec_path(),
            final(self).state() == log_truncated(old(self).state(), index as int, performed),
            done == (if 1 <= index <= old(self)@.len() && !performed {
                Err::<(), WalError>(WalError::Io)
            } else {
                Ok(())
            }),
    {
        proof {
            self.lemma_len();
        }
        let len: usize = self.entries.len();
        if index == 0 || index > len as u64 {
            return Ok(());
        }
        let position: usize = (index - 1) as usize;
        let offset: u64 = self.offsets[position];
        match self.wal.truncate_from(offset, performed) {
            Ok(()) => {},
            Err(e) => {
                return Err(e);
            },
        }
        self.entries.truncate(position);
        self.offsets.truncate(position);
        proof {
            assert(self@ =~= old(self)@.take(position as int));
            assert(self.spec_offsets() =~= old(self).spec_offsets().take(position as int));
            lemma_layout_take(
                old(self).spec_offsets(),
                old(self).spec_end(),
                position as int,
            );
        }
        Ok(())
    }

    /// Whether our log matches the leader's just before the entries it sends, and
    /// if not, where it should try again.
    pub fn check_previous(&self, prev_log_index: u64, prev_log_term: u64) -> (conflict: Option<u64>)
        requires
            self.wf(),
        ensures
            match conflict {
                None => matches_at(self@, prev_log_index as int, prev_log_term),
                Some(at) => {
                    &&& !matches_at(self@, prev_log_index as int, prev_log_term)
                    &&& at == conflict_index(self@, prev_log_index as int)
                },
            },
    {
        proof {
            self.lemma_len();
        }
        // We're simply missing entries the leader assumes we have.
        if prev_log_index > self.last_index() {
            return Some(self.last_index() + 1);
        }
        let our_term: u64 = match self.term_at(prev_log_index) {
            Some(term) => term,
            None => {
                return Some(prev_log_index);
            },
        };
        if our_term == prev_log_term {
            return None;
        }
        // Back the leader up past every entry of the term we disagree on, rather
        // than one index per round trip.
        let mut conflict: u64 = prev_log_index;
        while conflict > 1 && self.term_at(conflict - 1) == Some(our_term)
            invariant
                self.wf(),
                conflict <= prev_log_index,
                term_at(self@, conflict as int) == Some(our_term),
                run_start(self@, conflict as int) == run_start(self@, prev_log_index as int),
            decreases conflict,
        {
            conflict -= 1;
        }
        Some(conflict)
    }

    /// How many of `entries` we already hold, so that a duplicate or delayed
    /// `AppendEntries` can't truncate a suffix that is actually fine, possibly a
    /// committed one. Only a genuine term mismatch truncates.
    fn held_count(&self, entries: &[LogEntry]) -> (n: usize)
        requires
            self.wf(),
        ensures
            n == first_new(self@, entries_view(entries@), 0),
            n <= entries@.len(),
    {
        let ghost all = entries_view(entries@);
        let mut n: usize = 0;
        while n < entries.len()
            invariant
                self.wf(),
                all == entries_view(entries@),
                n <= entries@.len(),
                first_new(self@, all, n as int) == first_new(self@, all, 0),
            decreases entries@.len() - n,
        {
            let entry = &entries[n];
            assert(all[n as int] == entry@);
            match self.term_at(entry.index) {
                Some(existing) => {
                    if existing != entry.term {
                        return n;
                    }
                },
                None => {
                    return n;
                },
            }
            n += 1;
        }
        n
    }

    /// Whether the records of all these payloads can be written after the last
    /// one without running out of file offsets.
    pub fn has_room(&self, payloads: &[Vec<u8>]) -> (ok: bool)
        ensures
            ok == (self.spec_end() + framed_len(
                payloads_view(payloads@),
                0,
                payloads@.len() as int,
            ) <= u64::MAX),
    {
        let ghost all = payloads_view(payloads@);
        let mut end: u64 = self.wal.end_offset();
        let mut i: usize = 0;
        while i < payloads.len()
            invariant
                i <= payloads@.len(),
                all == payloads_view(payloads@),
                end == self.spec_end() + framed_len(all, 0, i as int),
            decreases payloads@.len() - i,
        {
            let len: u64 = payloads[i].len() as u64;
            proof {
                assert(all[i as int] == payloads@[i as int]@);
                assert(framed_len(all, 0, i + 1) == framed_len(all, 0, i as int)
                    + RECORD_HEADER_LEN + all[i as int].len());
                lemma_framed_len_grows(all, 0, i + 1, payloads@.len() as int);
            }
            if len > u64::MAX - RECORD_HEADER_LEN || end > u64::MAX - RECORD_HEADER_LEN - len {
                return false;
            }
            end = end + RECORD_HEADER_LEN + len;
            i += 1;
        }
        true
    }

    /// The file changes that [`RaftLog::try_append`] needs for these entries, in
    /// order. `payloads` holds the encoding of each of them.
    pub fn plan_append(
        &self,
        prev_log_index: u64,
        prev_log_term: u64,
        entries: &[LogEntry],
        payloads: &[Vec<u8>],
    ) -> (ops: Vec<FileOp>)
        requires
            self.wf(),
            payloads@.len() == entries@.len(),
            self.spec_end() + framed_len(payloads_view(payloads@), 0, payloads@.len() as int)
                <= u64::MAX,
        ensures
            ops_view(ops@) == planned_ops(
                self.state(),
                prev_log_index as int,
                prev_log_term,
                entries_view(entries@),
                payloads_view(payloads@),
            ),
            matches_at(self@, prev_log_index as int, prev_log_term) ==> ops@.len()
                == append_op_count(
                self.state(),
                entries_view(entries@),
                payloads_view(payloads@),
            ),
    {
        let ghost all = entries_view(entries@);
        let ghost bytes = payloads_view(payloads@);
        let mut ops: Vec<FileOp> = Vec::new();
        assert(ops_view(ops@) =~= Seq::empty());
        if self.check_previous(prev_log_index, prev_log_term).is_some() {
            return ops;
        }
        let from: usize = self.held_count(entries);
        let ghost base = self.state().cut(kept_len(self@, all));
        let mut end: u64 = self.wal.end_offset();
        if from < entries.len() {
            proof {
                self.lemma_len();
                assert(all[from as int] == entries@[from as int]@);
                assert(self.offsets.len() == self@.len());
            }
            if let Some(op) = self.truncation(entries[from].index) {
                let position: usize = (entries[from].index - 1) as usize;
                end = self.offsets[position];
                assert(self.spec_offsets()[position as int] == end);
                ops.push(op);
                assert(ops_view(ops@) =~= seq![FileOpView::SetLen { len: base.end }]);
            }
        }
        let ghost cut = ops_view(ops@);
        proof {
            lemma_base_end(*self, all);
            lemma_op_count(self.state(), all, bytes);
            assert(cut + record_ops(bytes, from as int, from as int, base.end) =~= cut);
        }
        let mut i: usize = from;
        let ghost at = base.end;
        while i < entries.len()
            invariant
                payloads@.len() == entries@.len(),
                bytes == payloads_view(payloads@),
                from <= i <= entries@.len(),
                at <= self.spec_end(),
                self.spec_end() + framed_len(bytes, 0, payloads@.len() as int) <= u64::MAX,
                matches_at(self@, prev_log_index as int, prev_log_term),
                all == entries_view(entries@),
                from == first_new(self@, all, 0),
                at == self.state().cut(kept_len(self@, all)).end,
                append_ops(self.state(), all, bytes) == cut + record_ops(
                    bytes,
                    from as int,
                    first_too_long(bytes, from as int),
                    at,
                ),
                append_ops(self.state(), all, bytes).len() == append_op_count(
                    self.state(),
                    all,
                    bytes,
                ),
                end == at + framed_len(bytes, from as int, i as int),
                first_too_long(bytes, i as int) == first_too_long(bytes, from as int),
                ops_view(ops@) == cut + record_ops(bytes, from as int, i as int, at),
            decreases entries@.len() - i,
        {
            assert(bytes[i as int] == payloads@[i as int]@);
            match Wal::frame_at(end, payloads[i].as_slice()) {
                Ok(op) => {
                    let ghost before = ops_view(ops@);
                    ops.push(op);
                    proof {
                        assert(ops_view(ops@) =~= before.push(op@));
                        assert(record_ops(bytes, from as int, i + 1, at) =~= record_ops(
                            bytes,
                            from as int,
                            i as int,
                            at,
                        ).push(op@));
                        assert(before.push(op@) =~= cut + record_ops(
                            bytes,
                            from as int,
                            i + 1,
                            at,
                        ));
                        lemma_framed_len_within(bytes, from as int, i + 1);
                    }
                    end = end + RECORD_HEADER_LEN + payloads[i].len() as u64;
                    i += 1;
                },
                Err(_) => {
                    return ops;
                },
            }
        }
        ops
    }

    /// The follower side of `AppendEntries`: check that our log matches the
    /// leader's at `prev_log_index`, then take the entries. `performed` says how
    /// many of the changes that [`RaftLog::plan_append`] gives for the same
    /// arguments reached the disk; the log holds what the disk holds.
    pub fn try_append(
        &mut self,
        prev_log_index: u64,
        prev_log_term: u64,
        entries: &[LogEntry],
        payloads: &[Vec<u8>],
        performed: usize,
    ) -> (outcome: Result<AppendOutcome, WalError>)
        requires
            old(self).wf(),
            payloads@.len() == entries@.len(),
            old(self).spec_end() + framed_len(
                payloads_view(payloads@),
                0,
                payloads@.len() as int,
            ) <= u64::MAX,
            performed <= append_op_count(
                old(self).state(),
                entries_view(entries@),
                payloads_view(payloads@),
            ),
        ensures
            final(self).wf(),
            final(self).spec_path() == old(self).spec_path(),
            final(self).state() == log_after(
                old(self).state(),
                prev_log_index as int,
                prev_log_term,
                entries_view(entries@),
                payloads_view(payloads@),
                performed as int,
            ),
            outcome == append_outcome(
                old(self).state(),
                prev_log_index as int,
                prev_log_term,
                entries_view(entries@),
                payloads_view(payloads@),
                performed as int,
            ),
    {
        let ghost start = self.state();
        let ghost all = entries_view(entries@);
        let ghost bytes = payloads_view(payloads@);
        if let Some(conflict_index) = self.check_previous(prev_log_index, prev_log_term) {
            return Ok(AppendOutcome::Conflict { conflict_index });
        }
        let from: usize = self.held_count(entries);
        let ghost base = start.cut(kept_len(start.entries, all));
        let ghost stop = first_too_long(bytes, from as int);
        let mut left: usize = performed;
        proof {
            self.lemma_len();
            lemma_base_end(*self, all);
            lemma_first_too_long(bytes, from as int);
        }
        if from < entries.len() {
            assert(all[from as int] == entries@[from as int]@);
            let index: u64 = entries[from].index;
            if index >= 1 && index <= self.last_index() {
                match self.truncate_from(index, left > 0) {
                    Ok(()) => {},
                    Err(e) => {
                        return Err(e);
                    },
                }
                left -= 1;
            }
        }
        let ghost cuts = performed - left;
        let mut i: usize = from;
        while i < entries.len()
            invariant
                self.wf(),
                self.spec_path() == old(self).spec_path(),
                all == entries_view(entries@),
                bytes == payloads_view(payloads@),
                payloads@.len() == entries@.len(),
                from <= i <= stop <= entries@.len(),
                stop == first_too_long(bytes, from as int),
                forall|k: int| from <= k < stop ==> fits_record((#[trigger] bytes[k]).len()),
                stop < entries@.len() ==> !fits_record(bytes[stop].len()),
                base.end <= start.end,
                start.end + framed_len(bytes, 0, payloads@.len() as int) <= u64::MAX,
                self.state() == base.grown_by(all, bytes, from as int, i as int),
                left == performed - cuts - (i - from),
                performed - cuts <= stop - from,
                cuts == (if base.entries.len() < start.entries.len() {
                    1int
                } else {
                    0int
                }),
                start == old(self).state(),
                base == start.cut(kept_len(start.entries, all)),
                from == first_new(start.entries, all, 0),
                append_op_count(start, all, bytes) == cuts + stop - from,
                matches_at(old(self)@, prev_log_index as int, prev_log_term),
            decreases entries@.len() - i,
        {
            proof {
                assert(bytes[i as int] == payloads@[i as int]@);
                assert(all[i as int] == entries@[i as int]@);
                lemma_grown_by_end(base, all, bytes, from as int, i as int);
                if i < stop {
                    lemma_framed_len_within(bytes, from as int, i + 1);
                }
            }
            let entry = entries[i].clone();
            match self.append_one(entry, payloads[i].as_slice(), left > 0) {
                Ok(()) => {},
                Err(e) => {
                    return Err(e);
                },
            }
            left -= 1;
            i += 1;
        }
        proof {
            old(self).lemma_len();
            lemma_framed_len_at_least(bytes, payloads@.len() as int);
        }
        Ok(AppendOutcome::Accepted { match_index: prev_log_index + entries.len() as u64 })
    }
}

/// Whether a log that ends at `(last_term, last_index)` is at least as up to
/// date as one that ends at `(than_term, than_index)`.
pub fn log_is_up_to_date(
    last_term: u64,
    last_index: u64,
    than_term: u64,
    than_index: u64,
) -> (ok: bool)
    ensures
        ok == at_least_as_up_to_date(last_term, last_index, than_term, than_index),
{
    if last_term > than_term {
        true
    } else if last_term < than_term {
        false
    } else {
        last_index >= than_index
    }
}

/// A run of entries that each belong where they are has no gaps and no term that
/// goes back.
proof fn lemma_belonging_is_consistent(
    decoded: Seq<Option<LogEntryView>>,
    log: Seq<LogEntryView>,
)
    requires
        log.len() <= decoded.len(),
        forall|i: int|
            0 <= i < log.len() ==> #[trigger] entry_belongs(decoded, i) && decoded[i] == Some(
                log[i],
            ),
    ensures
        consistent(log),
{
    assert forall|i: int| 0 <= i < log.len() implies (#[trigger] log[i]).index == i + 1 by {
        assert(entry_belongs(decoded, i));
    }
    assert forall|i: int, j: int| 0 <= i <= j < log.len() implies (#[trigger] log[i]).term <= (
    #[trigger] log[j]).term by {
        lemma_terms_grow(decoded, log, i, j);
    }
}

proof fn lemma_terms_grow(
    decoded: Seq<Option<LogEntryView>>,
    log: Seq<LogEntryView>,
    i: int,
    j: int,
)
    requires
        log.len() <= decoded.len(),
        forall|i: int|
            0 <= i < log.len() ==> #[trigger] entry_belongs(decoded, i) && decoded[i] == Some(
                log[i],
            ),
        0 <= i <= j < log.len(),
    ensures
        log[i].term <= log[j].term,
    decreases j - i,
{
    if i < j {
        lemma_terms_grow(decoded, log, i, j - 1);
        assert(entry_belongs(decoded, j) && entry_belongs(decoded, j - 1));
    }
}

/// Dropping the records from position `n` on leaves a proper layout.
proof fn lemma_layout_take(offsets: Seq<int>, end: int, n: int)
    requires
        layout_ok(offsets, end),
        0 <= n < offsets.len(),
    ensures
        layout_ok(offsets.take(n), offsets[n]),
{
}

/// One record more is a proper layout.
proof fn lemma_layout_push(offsets: Seq<int>, end: int, new_end: int)
    requires
        layout_ok(offsets, end),
        end + RECORD_HEADER_LEN <= new_end,
    ensures
        layout_ok(offsets.push(end), new_end),
{
}

/// Where the log ends once what disagrees with `entries` is cut off.
proof fn lemma_base_end(log: RaftLog, entries: Seq<LogEntryView>)
    requires
        log.wf(),
    ensures
        WAL_HEADER_LEN <= log.state().cut(kept_len(log@, entries)).end <= log.spec_end(),
{
    let n = kept_len(log@, entries);
    lemma_first_new(log@, entries, 0);
    if n < log@.len() {
        let last = log@.len() - 1;
        assert(log.spec_offsets()[n] <= log.spec_offsets()[last]);
    }
}

pub proof fn lemma_first_new(log: Seq<LogEntryView>, entries: Seq<LogEntryView>, i: int)
    requires
        0 <= i <= entries.len(),
    ensures
        i <= first_new(log, entries, i) <= entries.len(),
    decreases entries.len() - i,
{
    if i < entries.len() && term_at(log, entries[i].index as int) == Some(entries[i].term) {
        lemma_first_new(log, entries, i + 1);
    }
}

pub proof fn lemma_first_too_long(payloads: Seq<Seq<u8>>, i: int)
    requires
        0 <= i <= payloads.len(),
    ensures
        i <= first_too_long(payloads, i) <= payloads.len(),
        forall|k: int|
            i <= k < first_too_long(payloads, i) ==> fits_record((#[trigger] payloads[k]).len()),
        first_too_long(payloads, i) < payloads.len() ==> !fits_record(
            payloads[first_too_long(payloads, i)].len(),
        ),
    decreases payloads.len() - i,
{
    if i < payloads.len() && fits_record(payloads[i].len()) {
        lemma_first_too_long(payloads, i + 1);
    }
}

pub proof fn lemma_record_ops_len(payloads: Seq<Seq<u8>>, from: int, to: int, at: int)
    requires
        from <= to,
    ensures
        record_ops(payloads, from, to, at).len() == to - from,
    decreases to - from,
{
    if from < to {
        lemma_record_ops_len(payloads, from, to - 1, at);
    }
}

/// The changes are as many as that.
pub proof fn lemma_op_count(
    log: LogState,
    entries: Seq<LogEntryView>,
    payloads: Seq<Seq<u8>>,
)
    requires
        payloads.len() == entries.len(),
    ensures
        append_ops(log, entries, payloads).len() == append_op_count(log, entries, payloads),
{
    let from = first_new(log.entries, entries, 0);
    lemma_first_new(log.entries, entries, 0);
    lemma_first_too_long(payloads, from);
    lemma_record_ops_len(
        payloads,
        from,
        first_too_long(payloads, from),
        log.cut(kept_len(log.entries, entries)).end,
    );
}

/// The change that writes the record of position `k`.
pub proof fn lemma_record_ops_index(payloads: Seq<Seq<u8>>, from: int, to: int, at: int, k: int)
    requires
        from <= k < to,
    ensures
        record_ops(payloads, from, to, at).len() == to - from,
        record_ops(payloads, from, to, at)[k - from] == (FileOpView::WriteAt {
            offset: at + framed_len(payloads, from, k),
            bytes: frame(payloads[k]),
        }),
    decreases to - from,
{
    lemma_record_ops_len(payloads, from, to - 1, at);
    if k < to - 1 {
        lemma_record_ops_index(payloads, from, to - 1, at, k);
    }
}

/// More records take more room.
proof fn lemma_framed_len_grows(payloads: Seq<Seq<u8>>, from: int, to: int, upto: int)
    requires
        to <= upto,
    ensures
        framed_len(payloads, from, to) <= framed_len(payloads, from, upto),
        0 <= framed_len(payloads, from, to),
    decreases upto - from,
{
    if upto > from {
        if to < upto {
            lemma_framed_len_grows(payloads, from, to, upto - 1);
        } else {
            lemma_framed_len_grows(payloads, from, to - 1, to - 1);
        }
    }
}

/// A part of the records takes no more room than all of them.
proof fn lemma_framed_len_within(payloads: Seq<Seq<u8>>, from: int, to: int)
    requires
        0 <= from,
        to <= payloads.len(),
    ensures
        framed_len(payloads, from, to) <= framed_len(payloads, 0, payloads.len() as int),
{
    lemma_framed_len_part(payloads, from, to);
    lemma_framed_len_grows(payloads, 0, to, payloads.len() as int);
}

proof fn lemma_framed_len_part(payloads: Seq<Seq<u8>>, from: int, to: int)
    requires
        0 <= from,
    ensures
        framed_len(payloads, from, to) <= framed_len(payloads, 0, to),
    decreases to,
{
    if to > from {
        lemma_framed_len_part(payloads, from, to - 1);
    } else {
        lemma_framed_len_grows(payloads, 0, to, to);
    }
}

/// Every record takes at least its framing.
proof fn lemma_framed_len_at_least(payloads: Seq<Seq<u8>>, to: int)
    requires
        0 <= to,
    ensures
        framed_len(payloads, 0, to) >= RECORD_HEADER_LEN * to,
    decreases to,
{
    if to > 0 {
        lemma_framed_len_at_least(payloads, to - 1);
    }
}

pub proof fn lemma_grown_by_end(
    base: LogState,
    entries: Seq<LogEntryView>,
    payloads: Seq<Seq<u8>>,
    from: int,
    to: int,
)
    ensures
        base.grown_by(entries, payloads, from, to).end == base.end + framed_len(
            payloads,
            from,
            to,
        ),
    decreases to - from,
{
    if to > from {
        lemma_grown_by_end(base, entries, payloads, from, to - 1);
    }
}

} // verus!
