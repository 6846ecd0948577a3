//! What holds of the replicated log as a whole: it is on disk what it is in
//! memory, it survives a restart, and taking a leader's entries makes it agree
//! with the leader's log without losing anything the two already shared.

use crate::message::LogEntryView;
use crate::raft_log::{
    after_append,
    all_written,
    append_op_count,
    append_ops,
    append_outcome,
    at_least_as_up_to_date,
    conflict_index,
    consistent,
    entry_belongs,
    first_new,
    first_too_long,
    is_recovered_len,
    kept_len,
    last_term,
    lemma_op_count,
    log_after,
    matches_at,
    planned_ops,
    term_at,
    LogState,
};
use crate::wal::{
    fits_record,
    frame,
    lemma_end_bounds,
    lemma_records_layout,
    record_offsets,
    FileOpView,
    WalRecordView,
    WAL_HEADER_LEN,
};
use crate::wal_laws::{
    file_after,
    file_after_ops,
    is_clean,
    law_append_is_read_back,
    law_cut_drops_the_suffix,
    records,
};
use vstd::prelude::*;

verus! {

/// The payloads of the records.
pub open spec fn record_payloads(records: Seq<WalRecordView>) -> Seq<Seq<u8>> {
    records.map_values(|r: WalRecordView| r.payload)
}

/// The file holds one intact record per entry, at the offset the log has for it,
/// with these payloads, and nothing else.
pub open spec fn on_disk(file: Seq<u8>, log: LogState, payloads: Seq<Seq<u8>>) -> bool {
    &&& is_clean(file)
    &&& file.len() == log.end
    &&& log.entries.len() == log.offsets.len()
    &&& record_offsets(records(file)) == log.offsets
    &&& record_payloads(records(file)) == payloads
}

/// Appending an entry in memory and its record on disk keeps the two in step.
pub proof fn law_append_keeps_step(
    file: Seq<u8>,
    log: LogState,
    payloads: Seq<Seq<u8>>,
    entry: LogEntryView,
    payload: Seq<u8>,
)
    requires
        on_disk(file, log, payloads),
        fits_record(payload.len()),
    ensures
        on_disk(
            file_after(file, (FileOpView::WriteAt { offset: log.end, bytes: frame(payload) })),
            log.grown(entry, payload.len()),
            payloads.push(payload),
        ),
{
    let end = file.len() as int;
    lemma_end_bounds(file, WAL_HEADER_LEN as int);
    assert(file.take(end) =~= file);
    law_append_is_read_back(file, end, payload);
    let written = file_after(file, FileOpView::WriteAt { offset: end, bytes: frame(payload) });
    let record = WalRecordView { offset: end, payload };
    assert(records(written) == records(file).push(record));
    assert(record_offsets(records(written)) =~= log.offsets.push(end));
    assert(record_payloads(records(written)) =~= payloads.push(payload));
}

/// Cutting the log back in memory and on disk keeps the two in step.
pub proof fn law_cut_keeps_step(file: Seq<u8>, log: LogState, payloads: Seq<Seq<u8>>, n: int)
    requires
        on_disk(file, log, payloads),
        0 <= n < log.entries.len(),
    ensures
        on_disk(
            file_after(file, (FileOpView::SetLen { len: log.offsets[n] })),
            log.cut(n),
            payloads.take(n),
        ),
{
    assert(record_offsets(records(file))[n] == records(file)[n].offset);
    law_cut_drops_the_suffix(file, n);
    lemma_records_layout(file, WAL_HEADER_LEN as int);
    lemma_end_bounds(file, WAL_HEADER_LEN as int);
    let cut = file_after(file, FileOpView::SetLen { len: log.offsets[n] });
    assert(record_offsets(records(cut)) =~= log.offsets.take(n));
    assert(record_payloads(records(cut)) =~= payloads.take(n));
}

/// The payloads on disk once the first `performed` of the changes for these entries
/// have been made: what was kept, and then as many of the new ones as were written.
pub open spec fn payloads_after(
    log: LogState,
    payloads: Seq<Seq<u8>>,
    entries: Seq<LogEntryView>,
    new_payloads: Seq<Seq<u8>>,
    performed: int,
) -> Seq<Seq<u8>> {
    let from = first_new(log.entries, entries, 0);
    let kept = kept_len(log.entries, entries);
    let cuts: int = if kept < log.entries.len() {
        1
    } else {
        0
    };
    if performed < cuts {
        payloads
    } else {
        payloads.take(kept) + new_payloads.subrange(from, from + performed - cuts)
    }
}

/// Whatever part of an append the disk takes before it fails, the log holds
/// exactly what the disk holds: after `performed` changes, the records are those
/// that were kept and then as many of the new ones as were written.
pub proof fn law_append_holds_what_the_disk_holds(
    file: Seq<u8>,
    log: LogState,
    payloads: Seq<Seq<u8>>,
    entries: Seq<LogEntryView>,
    new_payloads: Seq<Seq<u8>>,
    performed: int,
)
    requires
        on_disk(file, log, payloads),
        new_payloads.len() == entries.len(),
        0 <= performed <= append_ops(log, entries, new_payloads).len(),
    ensures
        on_disk(
            file_after_ops(file, append_ops(log, entries, new_payloads), performed),
            after_append(log, entries, new_payloads, performed),
            payloads_after(log, payloads, entries, new_payloads, performed),
        ),
    decreases performed,
{
    let ops = append_ops(log, entries, new_payloads);
    let from = first_new(log.entries, entries, 0);
    let stop = first_too_long(new_payloads, from);
    let kept = kept_len(log.entries, entries);
    let base = log.cut(kept);
    let now = file_after_ops(file, ops, performed);
    let cuts: int = if base.entries.len() < log.entries.len() {
        1
    } else {
        0
    };
    crate::raft_log::lemma_first_new(log.entries, entries, 0);
    crate::raft_log::lemma_first_too_long(new_payloads, from);
    crate::raft_log::lemma_record_ops_len(new_payloads, from, stop, base.end);
    assert(kept < log.entries.len() <==> cuts == 1);
    let held = payloads_after(log, payloads, entries, new_payloads, performed);
    assert(payloads.len() == log.entries.len()) by {
        assert(record_offsets(records(file)).len() == record_payloads(records(file)).len());
    }
    if performed == 0 {
        assert(after_append(log, entries, new_payloads, 0) == log);
        assert(held =~= payloads);
    } else if performed == cuts {
        law_cut_keeps_step(file, log, payloads, kept);
        assert(ops[0] == FileOpView::SetLen { len: log.offsets[kept] });
        reveal_with_fuel(file_after_ops, 2);
        assert(after_append(log, entries, new_payloads, 1) == base);
        assert(held =~= payloads.take(kept));
    } else {
        law_append_holds_what_the_disk_holds(
            file,
            log,
            payloads,
            entries,
            new_payloads,
            performed - 1,
        );
        let before = file_after_ops(file, ops, performed - 1);
        let log_before = after_append(log, entries, new_payloads, performed - 1);
        let held_before = payloads_after(log, payloads, entries, new_payloads, performed - 1);
        let k = from + performed - cuts;
        assert(log_before == base.grown_by(entries, new_payloads, from, k - 1));
        crate::raft_log::lemma_grown_by_end(base, entries, new_payloads, from, k - 1);
        crate::raft_log::lemma_record_ops_index(new_payloads, from, stop, base.end, k - 1);
        assert(ops[performed - 1] == FileOpView::WriteAt {
            offset: log_before.end,
            bytes: frame(new_payloads[k - 1]),
        });
        law_append_keeps_step(before, log_before, held_before, entries[k - 1], new_payloads[k - 1]);
        assert(held =~= held_before.push(new_payloads[k - 1]));
    }
}

/// Every payload decodes to the entry at its position.
pub open spec fn decode_to(
    decode: spec_fn(Seq<u8>) -> Option<LogEntryView>,
    payloads: Seq<Seq<u8>>,
    entries: Seq<LogEntryView>,
) -> bool {
    &&& payloads.len() == entries.len()
    &&& forall|i: int| 0 <= i < payloads.len() ==> decode(#[trigger] payloads[i]) == Some(entries[i])
}

/// What recovery reads from a file: what each record's payload decodes to.
pub open spec fn decoded_records(
    decode: spec_fn(Seq<u8>) -> Option<LogEntryView>,
    file: Seq<u8>,
) -> Seq<Option<LogEntryView>> {
    records(file).map_values(|r: WalRecordView| decode(r.payload))
}

/// Memory and disk agree after a message was taken, or as much of it as the disk took
/// before it failed: the log is still consistent, everything before the entries sent
/// is unchanged, and opening the file gives exactly the log's entries, at the log's
/// offsets, with nothing to repair.
pub proof fn law_append_is_reopened_whole(
    file: Seq<u8>,
    log: LogState,
    payloads: Seq<Seq<u8>>,
    prev_index: int,
    prev_term: u64,
    entries: Seq<LogEntryView>,
    new_payloads: Seq<Seq<u8>>,
    performed: int,
    decode: spec_fn(Seq<u8>) -> Option<LogEntryView>,
)
    requires
        on_disk(file, log, payloads),
        consistent(log.entries),
        0 <= prev_index,
        follows(entries, prev_index, prev_term),
        decode_to(decode, payloads, log.entries),
        decode_to(decode, new_payloads, entries),
        0 <= performed <= planned_ops(log, prev_index, prev_term, entries, new_payloads).len(),
    ensures
        ({
            let ops = planned_ops(log, prev_index, prev_term, entries, new_payloads);
            let now = file_after_ops(file, ops, performed);
            let after = log_after(log, prev_index, prev_term, entries, new_payloads, performed);
            &&& consistent(after.entries)
            &&& matches_at(log.entries, prev_index, prev_term) ==> after.entries.take(prev_index)
                == log.entries.take(prev_index)
            &&& is_clean(now)
            &&& now.len() == after.end
            &&& record_offsets(records(now)) == after.offsets
            &&& decoded_records(decode, now) == after.entries.map_values(|e: LogEntryView| Some(e))
            &&& is_recovered_len(decoded_records(decode, now), after.entries.len() as int)
            &&& forall|n: int|
                is_recovered_len(decoded_records(decode, now), n) ==> n == after.entries.len()
        }),
{
    let ops = planned_ops(log, prev_index, prev_term, entries, new_payloads);
    let now = file_after_ops(file, ops, performed);
    let after = log_after(log, prev_index, prev_term, entries, new_payloads, performed);
    let matched = matches_at(log.entries, prev_index, prev_term);
    let held = if matched {
        payloads_after(log, payloads, entries, new_payloads, performed)
    } else {
        payloads
    };
    if matched {
        law_append_holds_what_the_disk_holds(
            file,
            log,
            payloads,
            entries,
            new_payloads,
            performed,
        );
        law_append_keeps_consistency(
            log,
            prev_index,
            prev_term,
            entries,
            new_payloads,
            performed,
        );
        lemma_entries_after(log, payloads, prev_index, entries, new_payloads, performed, decode);
    }
    assert(on_disk(now, after, held));
    assert(decode_to(decode, held, after.entries));
    let decoded = decoded_records(decode, now);
    assert forall|i: int| 0 <= i < decoded.len() implies #[trigger] decoded[i] == Some(
        after.entries[i],
    ) by {
        assert(record_payloads(records(now))[i] == held[i]);
    }
    assert(decoded.len() == held.len()) by {
        assert(record_payloads(records(now)).len() == held.len());
    }
    assert(decoded =~= after.entries.map_values(|e: LogEntryView| Some(e)));
    assert forall|i: int| 0 <= i < decoded.len() implies #[trigger] entry_belongs(decoded, i) by {
        if i > 0 {
            assert(decoded[i - 1] == Some(after.entries[i - 1]));
            assert(after.entries[i - 1].term <= after.entries[i].term);
        }
    }
    assert forall|n: int| is_recovered_len(decoded, n) implies n == after.entries.len() by {
        if n < decoded.len() {
            assert(entry_belongs(decoded, n));
        }
    }
}

proof fn lemma_entries_after(
    log: LogState,
    payloads: Seq<Seq<u8>>,
    prev_index: int,
    entries: Seq<LogEntryView>,
    new_payloads: Seq<Seq<u8>>,
    performed: int,
    decode: spec_fn(Seq<u8>) -> Option<LogEntryView>,
)
    requires
        log.entries.len() == log.offsets.len(),
        0 <= prev_index <= log.entries.len(),
        forall|i: int|
            0 <= i < entries.len() ==> (#[trigger] entries[i]).index == prev_index + 1 + i,
        decode_to(decode, payloads, log.entries),
        decode_to(decode, new_payloads, entries),
        0 <= performed <= append_ops(log, entries, new_payloads).len(),
    ensures
        ({
            let after = after_append(log, entries, new_payloads, performed).entries;
            let held = payloads_after(log, payloads, entries, new_payloads, performed);
            &&& decode_to(decode, held, after)
            &&& after.take(prev_index) == log.entries.take(prev_index)
        }),
{
    let from = first_new(log.entries, entries, 0);
    let kept = kept_len(log.entries, entries);
    let stop = first_too_long(new_payloads, from);
    let base = log.cut(kept);
    lemma_first_new_position(log.entries, entries, prev_index, 0);
    crate::raft_log::lemma_first_too_long(new_payloads, from);
    crate::raft_log::lemma_record_ops_len(new_payloads, from, stop, base.end);
    let cuts: int = if base.entries.len() < log.entries.len() {
        1
    } else {
        0
    };
    let after = after_append(log, entries, new_payloads, performed).entries;
    let held = payloads_after(log, payloads, entries, new_payloads, performed);
    if performed >= cuts {
        let to = from + performed - cuts;
        lemma_grown_entries(base, entries, new_payloads, from, to);
        assert(base.entries =~= log.entries.take(kept));
        assert forall|i: int| 0 <= i < held.len() implies decode(#[trigger] held[i]) == Some(
            after[i],
        ) by {
            if i < kept {
                assert(held[i] == payloads[i]);
            } else {
                assert(held[i] == new_payloads[from + i - kept]);
            }
        }
        assert(after.take(prev_index) =~= log.entries.take(prev_index));
    }
}

/// A log that is on disk comes back whole. If every payload decodes to the entry
/// it was made from, recovery takes every record: the records have the log's
/// offsets and end where the log ends, and no entry is dropped.
pub proof fn law_reopening_restores_the_log(
    file: Seq<u8>,
    log: LogState,
    payloads: Seq<Seq<u8>>,
    decoded: Seq<Option<LogEntryView>>,
    n: int,
)
    requires
        on_disk(file, log, payloads),
        consistent(log.entries),
        decoded.len() == log.entries.len(),
        forall|i: int| 0 <= i < decoded.len() ==> #[trigger] decoded[i] == Some(log.entries[i]),
        is_recovered_len(decoded, n),
    ensures
        n == log.entries.len(),
        record_offsets(records(file)) == log.offsets,
        crate::wal::records_end(file, WAL_HEADER_LEN as int) == log.end,
{
    if n < decoded.len() {
        assert(decoded[n] == Some(log.entries[n]));
        if n > 0 {
            assert(decoded[n - 1] == Some(log.entries[n - 1]));
            assert(log.entries[n - 1].term <= log.entries[n].term);
        }
        assert(entry_belongs(decoded, n));
    }
}

/// Stale records that are still intact are not resurrected: if the log's own
/// entries are followed by records that do not carry the next index, recovery
/// gives the log's own entries and stops there.
pub proof fn law_stale_suffix_is_dropped(
    entries: Seq<LogEntryView>,
    stale: Seq<Option<LogEntryView>>,
    n: int,
)
    requires
        consistent(entries),
        stale.len() > 0,
        stale[0] matches Some(e) ==> e.index != entries.len() + 1,
        is_recovered_len(entries.map_values(|e: LogEntryView| Some(e)) + stale, n),
    ensures
        n == entries.len(),
{
    let own = entries.map_values(|e: LogEntryView| Some(e));
    let decoded = own + stale;
    let len = entries.len() as int;
    if n < len {
        assert(decoded[n] == Some(entries[n]));
        if n > 0 {
            assert(decoded[n - 1] == Some(entries[n - 1]));
            assert(entries[n - 1].term <= entries[n].term);
        }
        assert(entry_belongs(decoded, n));
    } else if n > len {
        assert(entry_belongs(decoded, len));
        assert(decoded[len] == stale[0]);
    }
}

/// The entries a leader sends after `prev_index`: the next indexes, in order,
/// with terms that never go back.
pub open spec fn follows(entries: Seq<LogEntryView>, prev_index: int, prev_term: u64) -> bool {
    &&& forall|i: int|
        0 <= i < entries.len() ==> (#[trigger] entries[i]).index == prev_index + 1 + i
    &&& forall|i: int, j: int|
        0 <= i <= j < entries.len() ==> (#[trigger] entries[i]).term <= (
        #[trigger] entries[j]).term
    &&& forall|i: int| 0 <= i < entries.len() ==> prev_term <= (#[trigger] entries[i]).term
}

/// Where the new part of such a message goes.
pub proof fn lemma_first_new_position(
    log: Seq<LogEntryView>,
    entries: Seq<LogEntryView>,
    prev_index: int,
    i: int,
)
    requires
        0 <= i <= entries.len(),
        0 <= prev_index,
        prev_index + i <= log.len(),
        forall|i: int|
            0 <= i < entries.len() ==> (#[trigger] entries[i]).index == prev_index + 1 + i,
    ensures
        i <= first_new(log, entries, i) <= entries.len(),
        prev_index + first_new(log, entries, i) <= log.len(),
        forall|k: int|
            i <= k < first_new(log, entries, i) ==> log[prev_index + k].term == (
            #[trigger] entries[k]).term,
        first_new(log, entries, i) < entries.len() && prev_index + first_new(log, entries, i)
            < log.len() ==> log[prev_index + first_new(log, entries, i)].term
            != entries[first_new(log, entries, i)].term,
    decreases entries.len() - i,
{
    if i < entries.len() && term_at(log, entries[i].index as int) == Some(entries[i].term) {
        lemma_first_new_position(log, entries, prev_index, i + 1);
    }
}

/// What a message does to the entries of a log.
pub proof fn lemma_appended_entries(
    log: LogState,
    entries: Seq<LogEntryView>,
    payloads: Seq<Seq<u8>>,
    prev_index: int,
    performed: int,
) -> (kept: int)
    requires
        log.entries.len() == log.offsets.len(),
        0 <= prev_index <= log.entries.len(),
        payloads.len() == entries.len(),
        0 <= performed <= append_ops(log, entries, payloads).len(),
        forall|i: int|
            0 <= i < entries.len() ==> (#[trigger] entries[i]).index == prev_index + 1 + i,
    ensures
        prev_index <= kept <= log.entries.len(),
        ({
            let n = first_new(log.entries, entries, 0);
            let after = after_append(log, entries, payloads, performed).entries;
            &&& 0 <= n <= entries.len()
            &&& prev_index + n <= log.entries.len()
            &&& n == entries.len() ==> after == log.entries
            &&& n < entries.len() ==> kept == prev_index + n
            &&& after == log.entries || exists|to: int|
                n <= to <= entries.len() && #[trigger] entries.subrange(n, to) == entries.subrange(
                    n,
                    to,
                ) && after == log.entries.take(kept) + entries.subrange(n, to)
            &&& n < entries.len() && performed == append_ops(log, entries, payloads).len()
                && first_too_long(payloads, n) == payloads.len() ==> after == log.entries.take(kept)
                + entries.skip(n)
        }),
{
    let n = first_new(log.entries, entries, 0);
    lemma_first_new_position(log.entries, entries, prev_index, 0);
    let kept = kept_len(log.entries, entries);
    let stop = first_too_long(payloads, n);
    let base = log.cut(kept);
    crate::raft_log::lemma_first_too_long(payloads, n);
    crate::raft_log::lemma_record_ops_len(payloads, n, stop, base.end);
    let cuts: int = if base.entries.len() < log.entries.len() {
        1
    } else {
        0
    };
    let after = after_append(log, entries, payloads, performed).entries;
    if performed >= cuts {
        let to = n + performed - cuts;
        lemma_grown_entries(base, entries, payloads, n, to);
        assert(base.entries =~= log.entries.take(kept));
        assert(entries.subrange(n, to) == entries.subrange(n, to));
        if n == entries.len() {
            assert(after =~= log.entries);
        }
        if to == entries.len() {
            assert(entries.subrange(n, to) =~= entries.skip(n));
        }
    }
    kept
}

proof fn lemma_grown_entries(
    base: LogState,
    entries: Seq<LogEntryView>,
    payloads: Seq<Seq<u8>>,
    from: int,
    to: int,
)
    requires
        0 <= from <= to <= entries.len(),
    ensures
        base.grown_by(entries, payloads, from, to).entries == base.entries + entries.subrange(
            from,
            to,
        ),
    decreases to - from,
{
    if from < to {
        lemma_grown_entries(base, entries, payloads, from, to - 1);
        assert(base.entries + entries.subrange(from, to) =~= (base.entries + entries.subrange(
            from,
            to - 1,
        )).push(entries[to - 1]));
    } else {
        assert(base.entries + entries.subrange(from, to) =~= base.entries);
    }
}

/// Taking a leader's entries keeps the log consistent, however much of them
/// reaches the disk: indexes still run without gaps and terms never go back.
pub proof fn law_append_keeps_consistency(
    log: LogState,
    prev_index: int,
    prev_term: u64,
    entries: Seq<LogEntryView>,
    payloads: Seq<Seq<u8>>,
    performed: int,
)
    requires
        consistent(log.entries),
        log.entries.len() == log.offsets.len(),
        0 <= prev_index,
        matches_at(log.entries, prev_index, prev_term),
        follows(entries, prev_index, prev_term),
        payloads.len() == entries.len(),
        0 <= performed <= append_ops(log, entries, payloads).len(),
    ensures
        consistent(after_append(log, entries, payloads, performed).entries),
{
    let n = first_new(log.entries, entries, 0);
    let after = after_append(log, entries, payloads, performed).entries;
    let kept = lemma_appended_entries(log, entries, payloads, prev_index, performed);
    lemma_first_new_position(log.entries, entries, prev_index, 0);
    if after != log.entries {
        let to = choose|to: int|
            n <= to <= entries.len() && #[trigger] entries.subrange(n, to) == entries.subrange(
                n,
                to,
            ) && after == log.entries.take(kept) + entries.subrange(n, to);
        assert forall|i: int| 0 <= i < after.len() implies (#[trigger] after[i]).index == i + 1 by {
            if i < kept {
                assert(after[i] == log.entries[i]);
            } else {
                assert(after[i] == entries[n + i - kept]);
            }
        }
        assert forall|i: int, j: int| 0 <= i <= j < after.len() implies (#[trigger] after[i]).term
            <= (#[trigger] after[j]).term by {
            if j < kept {
                assert(after[i] == log.entries[i] && after[j] == log.entries[j]);
            } else if i >= kept {
                assert(after[i] == entries[n + i - kept] && after[j] == entries[n + j - kept]);
            } else {
                assert(after[i] == log.entries[i] && after[j] == entries[n + j - kept]);
                if i >= prev_index {
                    assert(log.entries[i].term == entries[i - prev_index].term);
                } else {
                    assert(log.entries[i].term <= log.entries[prev_index - 1].term);
                }
            }
        }
    }
}

/// Two logs in which an entry of the same index and term has the same history.
pub open spec fn share_history(a: Seq<LogEntryView>, b: Seq<LogEntryView>) -> bool {
    forall|i: int|
        1 <= i <= a.len() && i <= b.len() && #[trigger] term_at(a, i) == term_at(b, i) ==> a.take(i)
            == b.take(i)
}

/// A matching entry implies matching history: once a follower has taken
/// everything in a leader's message, its log agrees with the leader's up to the
/// last entry sent, and entries that agree anywhere still have the same history.
pub proof fn law_append_matches_the_leader(
    log: LogState,
    leader: Seq<LogEntryView>,
    prev_index: int,
    upto: int,
    payloads: Seq<Seq<u8>>,
)
    requires
        consistent(leader),
        log.entries.len() == log.offsets.len(),
        0 <= prev_index <= upto <= leader.len(),
        share_history(log.entries, leader),
        matches_at(log.entries, prev_index, term_at(leader, prev_index)->0),
        payloads.len() == upto - prev_index,
        first_too_long(
            payloads,
            first_new(log.entries, leader.subrange(prev_index, upto), 0),
        ) == payloads.len(),
    ensures
        ({
            let entries = leader.subrange(prev_index, upto);
            let ops = append_ops(log, entries, payloads);
            let after = after_append(log, entries, payloads, ops.len() as int).entries;
            &&& after.len() >= upto
            &&& after.take(upto) == leader.take(upto)
            &&& share_history(after, leader)
        }),
{
    let entries = leader.subrange(prev_index, upto);
    let ops = append_ops(log, entries, payloads);
    let after = after_append(log, entries, payloads, ops.len() as int).entries;
    let n = first_new(log.entries, entries, 0);
    assert(prev_index <= log.entries.len());
    let kept = lemma_appended_entries(log, entries, payloads, prev_index, ops.len() as int);
    lemma_first_new_position(log.entries, entries, prev_index, 0);
    crate::raft_log::lemma_first_too_long(payloads, n);
    // What is held already agrees, by its last term.
    let held = prev_index + n;
    assert(log.entries.take(held) == leader.take(held)) by {
        if held == 0 {
            assert(log.entries.take(0) =~= leader.take(0));
        } else {
            if n > 0 {
                assert(log.entries[prev_index + n - 1].term == entries[n - 1].term);
            }
            assert(term_at(log.entries, held) == term_at(leader, held));
        }
    }
    if n == entries.len() {
        assert(after == log.entries);
    } else {
        assert(after == log.entries.take(kept) + entries.skip(n));
        assert(after =~= leader.take(upto));
        assert forall|i: int|
            1 <= i <= after.len() && i <= leader.len() && #[trigger] term_at(after, i) == term_at(
                leader,
                i,
            ) implies after.take(i) == leader.take(i) by {
            assert(after.take(i) =~= leader.take(i));
        }
        assert(after.take(upto) =~= leader.take(upto));
    }
}

/// What taking a piece of a leader's log makes of a log: it stays, or it becomes
/// the beginning of the leader's; whatever agreed stays; and if everything was
/// written it has all that was sent.
pub proof fn lemma_taken(
    log: LogState,
    leader: Seq<LogEntryView>,
    prev: int,
    upto: int,
    payloads: Seq<Seq<u8>>,
    performed: int,
) -> (after: Seq<LogEntryView>)
    requires
        consistent(leader),
        log.entries.len() == log.offsets.len(),
        share_history(log.entries, leader),
        0 <= prev <= upto <= leader.len(),
        matches_at(log.entries, prev, term_at(leader, prev)->0),
        payloads.len() == upto - prev,
        0 <= performed <= append_op_count(log, leader.subrange(prev, upto), payloads),
    ensures
        after == after_append(log, leader.subrange(prev, upto), payloads, performed).entries,
        after == log.entries || (after.len() <= leader.len() && after == leader.take(
            after.len() as int,
        )),
        all_written(log, leader.subrange(prev, upto), payloads, performed) ==> after.len() >= upto
            && after.take(upto) == leader.take(upto),
{
    let entries = leader.subrange(prev, upto);
    let after = after_append(log, entries, payloads, performed).entries;
    let n = first_new(log.entries, entries, 0);
    lemma_op_count(log, entries, payloads);
    let kept_len = lemma_appended_entries(log, entries, payloads, prev, performed);
    lemma_first_new_position(log.entries, entries, prev, 0);
    let held = prev + n;
    assert(log.entries.take(held) == leader.take(held)) by {
        if held == 0 {
            assert(log.entries.take(0) =~= leader.take(0));
        } else {
            if n > 0 {
                assert(log.entries[prev + n - 1].term == entries[n - 1].term);
            }
            assert(term_at(log.entries, held) == term_at(leader, held));
        }
    }
    if after != log.entries {
        let to = choose|to: int|
            n <= to <= entries.len() && #[trigger] entries.subrange(n, to) == entries.subrange(
                n,
                to,
            ) && after == log.entries.take(kept_len) + entries.subrange(n, to);
        assert(after =~= leader.take(after.len() as int));
    }
    if all_written(log, entries, payloads, performed) {
        if n < entries.len() {
            assert(after == log.entries.take(kept_len) + entries.skip(n));
            assert(after.take(upto) =~= leader.take(upto));
        } else {
            assert(held == upto);
        }
    }
    after
}

/// Only a genuine disagreement truncates: entries that agree with the leader's,
/// as the committed ones do, stay, however the message overlaps them.
pub proof fn law_agreeing_entries_stay(
    log: LogState,
    leader: Seq<LogEntryView>,
    agreed: int,
    prev_index: int,
    upto: int,
    payloads: Seq<Seq<u8>>,
    performed: int,
)
    requires
        consistent(leader),
        log.entries.len() == log.offsets.len(),
        0 <= prev_index <= upto <= leader.len(),
        prev_index <= log.entries.len(),
        0 <= agreed <= log.entries.len(),
        agreed <= leader.len(),
        log.entries.take(agreed) == leader.take(agreed),
        payloads.len() == upto - prev_index,
        0 <= performed <= append_ops(log, leader.subrange(prev_index, upto), payloads).len(),
    ensures
        ({
            let after = after_append(
                log,
                leader.subrange(prev_index, upto),
                payloads,
                performed,
            ).entries;
            &&& after.len() >= agreed
            &&& after.take(agreed) == leader.take(agreed)
        }),
{
    let entries = leader.subrange(prev_index, upto);
    let n = first_new(log.entries, entries, 0);
    let after = after_append(log, entries, payloads, performed).entries;
    let kept = lemma_appended_entries(log, entries, payloads, prev_index, performed);
    lemma_first_new_position(log.entries, entries, prev_index, 0);
    if after != log.entries {
        let to = choose|to: int|
            n <= to <= entries.len() && #[trigger] entries.subrange(n, to) == entries.subrange(
                n,
                to,
            ) && after == log.entries.take(kept) + entries.subrange(n, to);
        if kept < agreed {
            assert(n < entries.len() && kept == prev_index + n);
            assert(log.entries.take(agreed)[kept] == log.entries[kept]);
            assert(leader.take(agreed)[kept] == entries[n]);
        }
        assert(after.take(agreed) =~= log.entries.take(agreed));
    }
}

/// A message that was answered without an error and arrives again changes nothing: it
/// gets the same answer, no entry is truncated, none is written twice, and no change
/// is made to the file.
pub proof fn law_append_is_idempotent(
    log: LogState,
    prev_index: int,
    prev_term: u64,
    entries: Seq<LogEntryView>,
    payloads: Seq<Seq<u8>>,
    performed: int,
)
    requires
        log.entries.len() == log.offsets.len(),
        0 <= prev_index,
        forall|i: int|
            0 <= i < entries.len() ==> (#[trigger] entries[i]).index == prev_index + 1 + i,
        payloads.len() == entries.len(),
        0 <= performed <= planned_ops(log, prev_index, prev_term, entries, payloads).len(),
        append_outcome(log, prev_index, prev_term, entries, payloads, performed) is Ok,
    ensures
        ({
            let once = log_after(log, prev_index, prev_term, entries, payloads, performed);
            &&& planned_ops(once, prev_index, prev_term, entries, payloads).len() == 0
            &&& log_after(once, prev_index, prev_term, entries, payloads, 0) == once
            &&& append_outcome(once, prev_index, prev_term, entries, payloads, 0)
                == append_outcome(log, prev_index, prev_term, entries, payloads, performed)
        }),
{
    if matches_at(log.entries, prev_index, prev_term) {
        let once = after_append(log, entries, payloads, performed);
        let n = first_new(log.entries, entries, 0);
        lemma_op_count(log, entries, payloads);
        let kept = lemma_appended_entries(log, entries, payloads, prev_index, performed);
        lemma_first_new_position(log.entries, entries, prev_index, 0);
        crate::raft_log::lemma_first_too_long(payloads, n);
        assert forall|i: int| 0 <= i < entries.len() implies prev_index + i < once.entries.len()
            && once.entries[prev_index + i].term == (#[trigger] entries[i]).term by {
            if n < entries.len() {
                assert(once.entries == log.entries.take(kept) + entries.skip(n));
                if i < n {
                    assert(once.entries[prev_index + i] == log.entries[prev_index + i]);
                } else {
                    assert(once.entries[prev_index + i] == entries[i]);
                }
            }
        }
        lemma_all_held(once.entries, entries, prev_index, 0);
        assert(first_too_long(payloads, payloads.len() as int) == payloads.len());
        assert(append_ops(once, entries, payloads) =~= Seq::empty());
        lemma_op_count(once, entries, payloads);
        assert(matches_at(once.entries, prev_index, prev_term)) by {
            if prev_index > 0 && n < entries.len() {
                assert(once.entries[prev_index - 1] == log.entries[prev_index - 1]);
            }
        }
    }
}

proof fn lemma_all_held(
    log: Seq<LogEntryView>,
    entries: Seq<LogEntryView>,
    prev_index: int,
    i: int,
)
    requires
        0 <= i <= entries.len(),
        0 <= prev_index,
        forall|i: int|
            0 <= i < entries.len() ==> (#[trigger] entries[i]).index == prev_index + 1 + i,
        forall|i: int|
            0 <= i < entries.len() ==> prev_index + i < log.len() && log[prev_index + i].term == (
            #[trigger] entries[i]).term,
    ensures
        first_new(log, entries, i) == entries.len(),
    decreases entries.len() - i,
{
    if i < entries.len() {
        lemma_all_held(log, entries, prev_index, i + 1);
    }
}

/// A refused message sends the leader back past every entry of the term in
/// dispute at once: all entries from the index given to the one it asked about
/// have that one's term, and the entry before them has another. A follower that
/// is merely behind asks for the next entry it needs.
pub proof fn law_conflict_skips_a_whole_term(log: Seq<LogEntryView>, prev_index: int)
    requires
        0 <= prev_index,
    ensures
        prev_index > log.len() ==> conflict_index(log, prev_index) == log.len() + 1,
        prev_index <= log.len() ==> {
            let start = conflict_index(log, prev_index);
            &&& start <= prev_index
            &&& prev_index >= 1 ==> start >= 1
            &&& forall|i: int|
                start <= i <= prev_index ==> #[trigger] term_at(log, i) == term_at(log, prev_index)
            &&& start > 1 ==> term_at(log, start - 1) != term_at(log, prev_index)
        },
    decreases prev_index,
{
    if prev_index <= log.len() && prev_index > 1 && term_at(log, prev_index - 1) == term_at(
        log,
        prev_index,
    ) {
        law_conflict_skips_a_whole_term(log, prev_index - 1);
    }
}

/// A leader that follows a refusal always asks about an earlier entry next, so
/// it reaches the point of agreement after finitely many round trips.
pub proof fn law_refusals_make_progress(log: Seq<LogEntryView>, prev_index: int, prev_term: u64)
    requires
        1 <= prev_index,
        !matches_at(log, prev_index, prev_term),
    ensures
        0 <= conflict_index(log, prev_index) - 1 < prev_index,
{
    law_conflict_skips_a_whole_term(log, prev_index);
}

/// A command appended by a leader whose term is not older than its log keeps the
/// log consistent.
pub proof fn law_command_keeps_consistency(log: LogState, entry: LogEntryView, len: nat)
    requires
        consistent(log.entries),
        entry.index == log.entries.len() + 1,
        last_term(log.entries) <= entry.term,
    ensures
        consistent(log.grown(entry, len).entries),
{
    let after = log.grown(entry, len).entries;
    assert forall|i: int, j: int| 0 <= i <= j < after.len() implies (#[trigger] after[i]).term <= (
    #[trigger] after[j]).term by {
        if i < log.entries.len() && j == log.entries.len() {
            assert(log.entries[i].term <= log.entries[log.entries.len() - 1].term);
        }
    }
}

/// Of any two logs one is at least as up to date as the other, and three logs
/// are ordered consistently: the election restriction is a total order on where
/// logs end.
pub proof fn law_up_to_date_is_a_total_order(a: (u64, u64), b: (u64, u64), c: (u64, u64))
    ensures
        at_least_as_up_to_date(a.0, a.1, b.0, b.1) || at_least_as_up_to_date(b.0, b.1, a.0, a.1),
        at_least_as_up_to_date(a.0, a.1, b.0, b.1) && at_least_as_up_to_date(b.0, b.1, c.0, c.1)
            ==> at_least_as_up_to_date(a.0, a.1, c.0, c.1),
        at_least_as_up_to_date(a.0, a.1, b.0, b.1) && at_least_as_up_to_date(b.0, b.1, a.0, a.1)
            ==> a == b,
{
}

} // verus!
