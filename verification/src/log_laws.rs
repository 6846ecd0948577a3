//! What the log does, entry by entry: what it takes, what it keeps, what it refuses, and
//! what recovery finds.

use crate::message::{CommandView, LogEntryView};
use crate::raft_laws::{
    follows,
    law_conflict_skips_a_whole_term,
    lemma_appended_entries,
    lemma_first_new_position,
};
use crate::raft_log::{
    append_outcome,
    command_outcome,
    entry_after,
    entry_belongs,
    first_new,
    first_too_long,
    framed_len,
    is_recovered_len,
    last_term,
    lemma_first_too_long,
    lemma_op_count,
    log_after,
    log_truncated,
    log_with_command,
    piece,
    planned_ops,
    reaches_as_far,
    recovered_end,
    stop_reason,
    term_at,
    truncation_op,
    AppendOutcome,
    LogState,
    StopReason,
};
use crate::wal::{length_error, FileOpView, WalError};
use vstd::prelude::*;

verus! {

/// The term at an index is that of the entry there. Before the first entry it is zero,
/// and past the last there is none. The last term is the one at the last index.
pub proof fn law_terms_are_those_of_the_entries(log: Seq<LogEntryView>, index: int)
    ensures
        1 <= index <= log.len() ==> term_at(log, index) == Some(log[index - 1].term),
        term_at(log, 0) == Some(0u64),
        index > log.len() ==> term_at(log, index) is None,
        term_at(log, log.len() as int) == Some(last_term(log)),
        log.len() == 0 ==> last_term(log) == 0,
{
}

/// A piece of the log is the entries from its index on, in order, as many as there are
/// or as were asked for.
pub proof fn law_piece_is_what_was_asked_for(log: Seq<LogEntryView>, index: int, max: int)
    requires
        index >= 1,
        max >= 0,
    ensures
        forall|i: int|
            0 <= i < piece(log, index, max).len() ==> #[trigger] piece(log, index, max)[i]
                == log[index - 1 + i],
        index > log.len() ==> piece(log, index, max).len() == 0,
        index + max <= log.len() + 1 ==> piece(log, index, max).len() == max,
        index <= log.len() && index + max > log.len() + 1 ==> piece(log, index, max).len()
            == log.len() + 1 - index,
        piece(log, 0, max).len() == 0,
{
}

/// A command that was written is the last entry of the log, with the leader's term, right
/// after what was there, and its index is returned. Where the record did not reach the
/// disk, or is too long, the log stays as it was.
pub proof fn law_command_goes_to_the_end(
    log: LogState,
    term: u64,
    command: CommandView,
    len: nat,
    written: bool,
)
    requires
        log.entries.len() < u64::MAX,
    ensures
        ({
            let after = log_with_command(log, term, command, len, written).entries;
            let n = log.entries.len() as int;
            len <= 67_108_864 && written ==> {
                &&& command_outcome(log, len, written) == Ok::<u64, WalError>((n + 1) as u64)
                &&& after.len() == n + 1
                &&& after[n].index == n + 1
                &&& after[n].term == term
                &&& after[n].command == command
                &&& forall|i: int| 0 <= i < n ==> after[i] == log.entries[i]
            }
        }),
        len > 67_108_864 || !written ==> {
            &&& command_outcome(log, len, written) is Err
            &&& log_with_command(log, term, command, len, written) == log
        },
        len <= 67_108_864 && !written ==> command_outcome(log, len, written) == Err::<
            u64,
            WalError,
        >(WalError::Io),
{
}

/// The record of an appended command goes where the log ended, and takes its payload and
/// eight bytes more; the records before it stay where they are.
pub proof fn law_command_takes_its_length(
    log: LogState,
    term: u64,
    command: CommandView,
    len: nat,
)
    requires
        log.entries.len() < u64::MAX,
        log.offsets.len() == log.entries.len(),
        len <= 67_108_864,
    ensures
        ({
            let after = log_with_command(log, term, command, len, true);
            &&& after.end == log.end + 8 + len
            &&& after.offsets.len() == after.entries.len()
            &&& after.offsets[log.offsets.len() as int] == log.end
            &&& forall|i: int| 0 <= i < log.offsets.len() ==> after.offsets[i] == log.offsets[i]
        }),
{
}

/// The entry that a leader encodes for a command is the one that its log then holds.
pub proof fn law_encoded_entry_is_the_one_appended(
    log: LogState,
    term: u64,
    command: CommandView,
    len: nat,
)
    requires
        log.entries.len() < u64::MAX,
        len <= 67_108_864,
    ensures
        entry_after(log.entries, term, command).index == log.entries.len() + 1,
        entry_after(log.entries, term, command).term == term,
        entry_after(log.entries, term, command).command == command,
        log_with_command(log, term, command, len, true).entries.last() == entry_after(
            log.entries,
            term,
            command,
        ),
{
}

/// A truncation cuts the file where the log then ends, and there is one exactly if the
/// index is in the log.
pub proof fn law_truncation_cuts_the_file_where_the_log_ends(log: LogState, index: int)
    requires
        log.offsets.len() == log.entries.len(),
    ensures
        1 <= index <= log.entries.len() ==> truncation_op(log, index) == Some(
            FileOpView::SetLen { len: log_truncated(log, index, true).end },
        ),
        index <= 0 || index > log.entries.len() ==> truncation_op(log, index) is None,
{
}

/// A log that ends in a later term than ours, or in the same term and is no shorter, is
/// at least as far as ours; any other is not.
pub proof fn law_other_log_is_measured_against_ours(
    log: Seq<LogEntryView>,
    other_term: u64,
    other_index: u64,
)
    requires
        log.len() <= u64::MAX,
    ensures
        log.len() == 0 ==> reaches_as_far(log, other_term, other_index),
        log.len() > 0 ==> {
            let ours = log[log.len() - 1].term;
            &&& other_term > ours ==> reaches_as_far(log, other_term, other_index)
            &&& other_term < ours ==> !reaches_as_far(log, other_term, other_index)
            &&& other_term == ours ==> (reaches_as_far(log, other_term, other_index) <==> other_index
                >= log.len())
        },
{
}

/// After recovery the log goes on where the first record that was dropped starts, or
/// where the file ends if none was: as if the whole log had been cut there.
pub proof fn law_dropped_records_are_written_over(log: LogState, n: int)
    requires
        log.offsets.len() == log.entries.len(),
        0 <= n <= log.entries.len(),
    ensures
        recovered_end(log.offsets, log.end, n) == log_truncated(log, n + 1, true).end,
        n == log.entries.len() ==> recovered_end(log.offsets, log.end, n) == log.end,
{
}

/// A truncation takes the entries from an index on, and leaves those before it; the log
/// then ends where the first of the others was. One that did not happen, or of an index
/// that is not in the log, takes nothing.
pub proof fn law_truncation_takes_the_tail(log: LogState, index: int, performed: bool)
    requires
        log.offsets.len() == log.entries.len(),
    ensures
        1 <= index <= log.entries.len() && performed ==> {
            let after = log_truncated(log, index, performed);
            &&& after.entries.len() == index - 1
            &&& after.offsets.len() == index - 1
            &&& forall|i: int| 0 <= i < index - 1 ==> after.entries[i] == log.entries[i]
            &&& forall|i: int| 0 <= i < index - 1 ==> after.offsets[i] == log.offsets[i]
            &&& after.end == log.offsets[index - 1]
        },
        index <= 0 || index > log.entries.len() || !performed ==> log_truncated(
            log,
            index,
            performed,
        ) == log,
{
}

/// A command that is appended and then truncated leaves the log as it was.
pub proof fn law_truncation_undoes_a_command(
    log: LogState,
    term: u64,
    command: CommandView,
    len: nat,
)
    requires
        log.entries.len() < u64::MAX,
        log.offsets.len() == log.entries.len(),
        len <= 67_108_864,
    ensures
        log_truncated(
            log_with_command(log, term, command, len, true),
            log.entries.len() as int + 1,
            true,
        ) == log,
{
    let back = log_truncated(
        log_with_command(log, term, command, len, true),
        log.entries.len() as int + 1,
        true,
    );
    assert(back.entries =~= log.entries);
    assert(back.offsets =~= log.offsets);
}

/// Whether the log has an entry of that term at that index, or the index is zero and so
/// is the term.
pub open spec fn agrees_before(log: Seq<LogEntryView>, prev_index: int, prev_term: u64) -> bool {
    ||| prev_index == 0 && prev_term == 0
    ||| 1 <= prev_index <= log.len() && log[prev_index - 1].term == prev_term
}

/// Whether the log holds the message's entries up to position `k` already.
pub open spec fn agrees_up_to(
    log: Seq<LogEntryView>,
    prev_index: int,
    entries: Seq<LogEntryView>,
    k: int,
) -> bool {
    &&& prev_index + k < log.len()
    &&& forall|j: int|
        0 <= j <= k ==> log[prev_index + j].term == (#[trigger] entries[j]).term
}

/// A message whose previous entry is in the log is taken whole, once its records are on
/// disk: its entries are then in the log at their indexes, after what was there before
/// them, and the answer says how far. Entries that were there stay if their terms agree,
/// and nothing is lost then; from the first that disagrees on, the log is the leader's.
/// Only what has to be written is held to the limit on a record's length.
pub proof fn law_matching_entries_are_taken(
    log: LogState,
    prev_index: int,
    prev_term: u64,
    entries: Seq<LogEntryView>,
    payloads: Seq<Seq<u8>>,
    performed: int,
)
    requires
        agrees_before(log.entries, prev_index, prev_term),
        follows(entries, prev_index, prev_term),
        log.offsets.len() == log.entries.len(),
        payloads.len() == entries.len(),
        prev_index + entries.len() <= u64::MAX,
        forall|k: int|
            0 <= k < payloads.len() ==> (#[trigger] payloads[k]).len() <= 67_108_864
                || agrees_up_to(log.entries, prev_index, entries, k),
        performed == planned_ops(log, prev_index, prev_term, entries, payloads).len(),
    ensures
        append_outcome(log, prev_index, prev_term, entries, payloads, performed) == Ok::<
            AppendOutcome,
            WalError,
        >(AppendOutcome::Accepted { match_index: (prev_index + entries.len()) as u64 }),
        ({
            let before = log.entries;
            let after = log_after(
                log,
                prev_index,
                prev_term,
                entries,
                payloads,
                performed,
            ).entries;
            let agree = forall|k: int|
                0 <= k < entries.len() && prev_index + k < before.len() ==> before[prev_index
                    + k].term == (#[trigger] entries[k]).term;
            &&& after.len() >= prev_index + entries.len()
            &&& forall|i: int| 0 <= i < prev_index ==> after[i] == before[i]
            &&& forall|k: int|
                0 <= k < entries.len() ==> after[prev_index + k].term == (
                #[trigger] entries[k]).term
            &&& forall|k: int|
                0 <= k < entries.len() && (prev_index + k >= before.len() || before[prev_index
                    + k].term != entries[k].term) ==> after[prev_index + k]
                    == #[trigger] entries[k]
            &&& agree ==> after.take(before.len() as int) == before
            &&& agree && before.len() > prev_index + entries.len() ==> after == before
            &&& agree && before.len() <= prev_index + entries.len() ==> after.len() == prev_index
                + entries.len()
            &&& !agree ==> after.len() == prev_index + entries.len()
        }),
{
    let before = log.entries;
    let n = first_new(before, entries, 0);
    lemma_first_new_position(before, entries, prev_index, 0);
    lemma_op_count(log, entries, payloads);
    lemma_first_too_long(payloads, n);
    assert(first_too_long(payloads, n) == payloads.len()) by {
        if first_too_long(payloads, n) < payloads.len() {
            let k = first_too_long(payloads, n);
            assert(payloads[k].len() <= 67_108_864 || agrees_up_to(
                before,
                prev_index,
                entries,
                k,
            ));
            if agrees_up_to(before, prev_index, entries, k) {
                assert(before[prev_index + n].term == entries[n].term);
            }
        }
    }
    let kept = lemma_appended_entries(log, entries, payloads, prev_index, performed);
    let after = log_after(log, prev_index, prev_term, entries, payloads, performed).entries;
    if n < entries.len() {
        assert(after == before.take(kept) + entries.skip(n));
        assert forall|k: int| 0 <= k < entries.len() implies after[prev_index + k].term == (
        #[trigger] entries[k]).term by {
            if k >= n {
                assert(after[prev_index + k] == entries.skip(n)[k - n]);
            } else {
                assert(after[prev_index + k] == before[prev_index + k]);
            }
        }
        assert forall|k: int|
            0 <= k < entries.len() && (prev_index + k >= before.len() || before[prev_index + k].term
                != entries[k].term) implies after[prev_index + k] == #[trigger] entries[k] by {
            assert(k >= n);
            assert(after[prev_index + k] == entries.skip(n)[k - n]);
        }
        if prev_index + n < before.len() {
            assert(before[prev_index + n].term != entries[n].term);
        } else {
            assert(after.take(before.len() as int) =~= before);
        }
    } else {
        assert(after == before);
        assert(after.take(before.len() as int) =~= before);
        assert forall|k: int| 0 <= k < entries.len() implies after[prev_index + k].term == (
        #[trigger] entries[k]).term by {}
    }
}

/// A message whose previous entry is not in the log is refused: nothing is written, the
/// log stays, and the leader is told where to try again. That is right after the log if
/// the log is too short, and else the first entry of the run of entries that share the
/// term of the one in dispute.
pub proof fn law_mismatch_is_refused(
    log: LogState,
    prev_index: int,
    prev_term: u64,
    entries: Seq<LogEntryView>,
    payloads: Seq<Seq<u8>>,
    performed: int,
)
    requires
        0 <= prev_index,
        log.entries.len() < u64::MAX,
        !agrees_before(log.entries, prev_index, prev_term),
    ensures
        planned_ops(log, prev_index, prev_term, entries, payloads).len() == 0,
        log_after(log, prev_index, prev_term, entries, payloads, performed) == log,
        append_outcome(log, prev_index, prev_term, entries, payloads, performed) matches Ok(
            AppendOutcome::Conflict { conflict_index },
        ) && {
            let held = log.entries;
            &&& prev_index > held.len() ==> conflict_index == held.len() + 1
            &&& 1 <= prev_index <= held.len() ==> {
                &&& 1 <= conflict_index <= prev_index
                &&& forall|i: int|
                    conflict_index <= i <= prev_index ==> (#[trigger] held[i - 1]).term
                        == held[prev_index - 1].term
                &&& conflict_index > 1 ==> held[conflict_index - 2].term != held[prev_index
                    - 1].term
            }
        },
{
    law_conflict_skips_a_whole_term(log.entries, prev_index);
    let at = crate::raft_log::conflict_index(log.entries, prev_index);
    if 1 <= prev_index <= log.entries.len() {
        assert forall|i: int| at <= i <= prev_index implies (#[trigger] log.entries[i - 1]).term
            == log.entries[prev_index - 1].term by {
            assert(term_at(log.entries, i) == term_at(log.entries, prev_index));
        }
    }
}

/// Entries are not acknowledged unless all of them are on disk: if a change to the file
/// was not made, or a payload that has to be written is too long, the answer is an error.
pub proof fn law_unwritten_entries_are_not_acknowledged(
    log: LogState,
    prev_index: int,
    prev_term: u64,
    entries: Seq<LogEntryView>,
    payloads: Seq<Seq<u8>>,
    performed: int,
)
    requires
        agrees_before(log.entries, prev_index, prev_term),
        payloads.len() == entries.len(),
        ({
            ||| performed < planned_ops(log, prev_index, prev_term, entries, payloads).len()
            ||| exists|k: int|
                first_new(log.entries, entries, 0) <= k < payloads.len() && (
                #[trigger] payloads[k]).len() > 67_108_864
        }),
    ensures
        append_outcome(log, prev_index, prev_term, entries, payloads, performed) is Err,
        performed < planned_ops(log, prev_index, prev_term, entries, payloads).len()
            ==> append_outcome(log, prev_index, prev_term, entries, payloads, performed) == Err::<
            AppendOutcome,
            WalError,
        >(WalError::Io),
        performed == planned_ops(log, prev_index, prev_term, entries, payloads).len() ==> exists|
            k: int,
        |
            0 <= k < payloads.len() && (#[trigger] payloads[k]).len() > 67_108_864
                && append_outcome(log, prev_index, prev_term, entries, payloads, performed) == Err::<
                AppendOutcome,
                WalError,
            >(length_error(payloads[k].len())),
{
    let n = first_new(log.entries, entries, 0);
    lemma_op_count(log, entries, payloads);
    crate::raft_log::lemma_first_new(log.entries, entries, 0);
    lemma_first_too_long(payloads, n);
}

/// The records of several payloads take what each of them takes: eight bytes and the
/// payload.
pub proof fn law_records_lie_side_by_side(
    payloads: Seq<Seq<u8>>,
    from: int,
    mid: int,
    to: int,
)
    requires
        0 <= from <= mid <= to <= payloads.len(),
    ensures
        framed_len(payloads, from, to) == framed_len(payloads, from, mid) + framed_len(
            payloads,
            mid,
            to,
        ),
        from < payloads.len() ==> framed_len(payloads, from, from + 1) == 8 + payloads[from].len(),
        framed_len(payloads, from, from) == 0,
    decreases to - mid,
{
    if mid < to {
        law_records_lie_side_by_side(payloads, from, mid, to - 1);
    }
    reveal_with_fuel(framed_len, 2);
}

/// Recovery takes the longest run of records, from the first, that holds entries 1, 2, 3
/// and so on with terms that never go back; it stops at the first record that is no entry,
/// or not the next one, or whose term goes back, and says which of these it was.
pub proof fn law_recovery_takes_the_longest_good_run(
    decoded: Seq<Option<LogEntryView>>,
    n: int,
)
    requires
        is_recovered_len(decoded, n),
    ensures
        forall|i: int|
            0 <= i < n ==> (#[trigger] decoded[i]) is Some && decoded[i]->0.index == i + 1,
        forall|i: int, j: int|
            0 <= i <= j < n ==> (#[trigger] decoded[i])->0.term <= (#[trigger] decoded[j])->0.term,
        n < decoded.len() ==> match decoded[n] {
            None => stop_reason(decoded, n) == StopReason::Undecodable,
            Some(e) => {
                ||| e.index != n + 1 && stop_reason(decoded, n) == (StopReason::WrongIndex {
                    expected: (n + 1) as u64,
                    found: e.index,
                })
                ||| n > 0 && e.index == n + 1 && e.term < decoded[n - 1]->0.term && stop_reason(
                    decoded,
                    n,
                ) == (StopReason::TermWentBack { term: e.term, previous: decoded[n - 1]->0.term })
            },
        },
    decreases n,
{
    if n > 0 {
        assert forall|i: int| 0 <= i < n implies (#[trigger] decoded[i]) is Some
            && decoded[i]->0.index == i + 1 by {
            assert(entry_belongs(decoded, i));
        }
        assert(entry_belongs(decoded, n - 1));
        lemma_terms_rise(decoded, n);
    }
}

proof fn lemma_terms_rise(decoded: Seq<Option<LogEntryView>>, n: int)
    requires
        0 <= n <= decoded.len(),
        forall|i: int| 0 <= i < n ==> #[trigger] entry_belongs(decoded, i),
    ensures
        forall|i: int, j: int|
            0 <= i <= j < n ==> (#[trigger] decoded[i])->0.term <= (#[trigger] decoded[j])->0.term,
    decreases n,
{
    if n > 0 {
        lemma_terms_rise(decoded, n - 1);
        assert(entry_belongs(decoded, n - 1));
    }
}

/// Records that all hold the next entry with terms that never go back are recovered
/// whole.
pub proof fn law_a_sound_log_is_recovered_whole(decoded: Seq<Option<LogEntryView>>, n: int)
    requires
        is_recovered_len(decoded, n),
        forall|i: int|
            0 <= i < decoded.len() ==> (#[trigger] decoded[i]) is Some && decoded[i]->0.index == i
                + 1,
        forall|i: int, j: int|
            0 <= i <= j < decoded.len() ==> (#[trigger] decoded[i])->0.term <= (
            #[trigger] decoded[j])->0.term,
    ensures
        n == decoded.len(),
{
    law_recovery_takes_the_longest_good_run(decoded, n);
    if n < decoded.len() && n > 0 {
        assert(decoded[n - 1]->0.term <= decoded[n]->0.term);
    }
}

} // verus!
