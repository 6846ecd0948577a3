//! What holds of the log file as a whole: what was appended is read back, and a
//! crash or a corrupted byte costs the records from there on and nothing else.

use crate::bytes::{be_bytes, be_value, law_big_endian_is_positional, lemma_be_round_trip};
use crate::checksum::crc32;
use crate::wal::{
    append_op,
    fits_record,
    frame,
    header_verdict,
    lemma_end_bounds,
    lemma_record_bounds,
    length_error,
    open_end,
    open_error,
    open_ops,
    open_records,
    record_at,
    records_end,
    records_from,
    FileOpView,
    HeaderVerdict,
    WalError,
    WalErrorKind,
    WalRecordView,
    MAX_RECORD_LEN,
    RECORD_HEADER_LEN,
    WAL_HEADER_LEN,
    WAL_MAGIC,
};
use vstd::prelude::*;

verus! {

/// `n` zero bytes.
pub open spec fn zeros(n: int) -> Seq<u8> {
    Seq::new(
        (if n > 0 {
            n
        } else {
            0
        }) as nat,
        |i: int| 0u8,
    )
}

/// The file after a change.
pub open spec fn file_after(file: Seq<u8>, op: FileOpView) -> Seq<u8> {
    match op {
        FileOpView::WriteAt { offset, bytes } => {
            let head = (file + zeros(offset - file.len())).take(offset);
            if offset + bytes.len() < file.len() {
                head + bytes + file.skip(offset + bytes.len())
            } else {
                head + bytes
            }
        },
        FileOpView::SetLen { len } => (file + zeros(len - file.len())).take(len),
    }
}

/// The file after the first `n` changes.
pub open spec fn file_after_ops(file: Seq<u8>, ops: Seq<FileOpView>, n: int) -> Seq<u8>
    decreases n,
{
    if n <= 0 {
        file
    } else {
        file_after(file_after_ops(file, ops, n - 1), ops[n - 1])
    }
}

/// The records of a log file.
pub open spec fn records(file: Seq<u8>) -> Seq<WalRecordView> {
    records_from(file, WAL_HEADER_LEN as int)
}

/// A log file that is in order: the header is there, and intact records run to
/// the very end.
pub open spec fn is_clean(file: Seq<u8>) -> bool {
    &&& header_verdict(file) is Intact
    &&& records_end(file, WAL_HEADER_LEN as int) == file.len()
}

/// A log file that holds these payloads and nothing else.
pub open spec fn log_file(payloads: Seq<Seq<u8>>) -> Seq<u8>
    decreases payloads.len(),
{
    if payloads.len() == 0 {
        WAL_MAGIC@
    } else {
        log_file(payloads.drop_last()) + frame(payloads.last())
    }
}

/// A record depends on its own bytes only.
proof fn lemma_same_record(a: Seq<u8>, b: Seq<u8>, at: int)
    requires
        record_at(a, at) is Some,
        at + RECORD_HEADER_LEN + record_at(a, at)->0.len() <= b.len(),
        forall|i: int|
            at <= i < at + RECORD_HEADER_LEN + record_at(a, at)->0.len() ==> a[i] == b[i],
    ensures
        record_at(b, at) == record_at(a, at),
{
    let n = record_at(a, at)->0.len();
    assert(a.subrange(at, at + 4) =~= b.subrange(at, at + 4));
    assert(a.subrange(at + 4, at + 8) =~= b.subrange(at + 4, at + 8));
    assert(a.subrange(at + RECORD_HEADER_LEN, at + RECORD_HEADER_LEN + n) =~= b.subrange(
        at + RECORD_HEADER_LEN,
        at + RECORD_HEADER_LEN + n,
    ));
}

/// A framed payload is a record.
proof fn lemma_frame_is_record(file: Seq<u8>, at: int, payload: Seq<u8>)
    requires
        fits_record(payload.len()),
        0 <= at,
        at + frame(payload).len() <= file.len(),
        file.subrange(at, at + frame(payload).len()) == frame(payload),
    ensures
        frame(payload).len() == RECORD_HEADER_LEN + payload.len(),
        record_at(file, at) == Some(payload),
{
    let f = frame(payload);
    lemma_be_round_trip(payload.len() as u32);
    lemma_be_round_trip(crc32(payload));
    assert(file.subrange(at, at + 4) =~= f.subrange(0, 4));
    assert(f.subrange(0, 4) =~= be_bytes(payload.len() as u32));
    assert(file.subrange(at + 4, at + 8) =~= f.subrange(4, 8));
    assert(f.subrange(4, 8) =~= be_bytes(crc32(payload)));
    assert(file.subrange(at + 8, at + 8 + payload.len()) =~= f.subrange(8, 8 + payload.len() as int));
    assert(f.subrange(8, 8 + payload.len() as int) =~= payload);
}

/// Bytes after a complete run of records leave that run as it is.
proof fn lemma_extend(a: Seq<u8>, b: Seq<u8>, at: int)
    requires
        0 <= at <= a.len(),
        a.is_prefix_of(b),
        records_end(a, at) == a.len(),
    ensures
        records_from(b, at) == records_from(a, at) + records_from(b, a.len() as int),
        records_end(b, at) == records_end(b, a.len() as int),
    decreases a.len() - at,
{
    match record_at(a, at) {
        None => {
            assert(records_from(a, at) + records_from(b, at) =~= records_from(b, at));
        },
        Some(payload) => {
            lemma_record_bounds(a, at);
            lemma_same_record(a, b, at);
            let next = at + RECORD_HEADER_LEN + payload.len();
            lemma_extend(a, b, next);
            let first = seq![WalRecordView { offset: at, payload }];
            assert(first + (records_from(a, next) + records_from(b, a.len() as int)) =~= (first
                + records_from(a, next)) + records_from(b, a.len() as int));
        },
    }
}

/// Cutting the file where its run of records ends leaves that run.
proof fn lemma_trim(file: Seq<u8>, at: int)
    requires
        0 <= at <= file.len(),
    ensures
        at <= records_end(file, at) <= file.len(),
        records_from(file.take(records_end(file, at)), at) == records_from(file, at),
        records_end(file.take(records_end(file, at)), at) == records_end(file, at),
    decreases file.len() - at,
{
    let end = records_end(file, at);
    lemma_end_bounds(file, at);
    match record_at(file, at) {
        None => {},
        Some(payload) => {
            let next = at + RECORD_HEADER_LEN + payload.len();
            lemma_end_bounds(file, next);
            lemma_same_record(file, file.take(end), at);
            lemma_trim(file, next);
        },
    }
}

/// Every record lies where the one before it ends.
proof fn lemma_cut(file: Seq<u8>, at: int, n: int)
    requires
        0 <= at <= file.len(),
        0 <= n < records_from(file, at).len(),
    ensures
        at + RECORD_HEADER_LEN * n <= records_from(file, at)[n].offset <= file.len(),
        records_from(file.take(records_from(file, at)[n].offset), at) == records_from(
            file,
            at,
        ).take(n),
        records_end(file.take(records_from(file, at)[n].offset), at) == records_from(
            file,
            at,
        )[n].offset,
        record_at(file, records_from(file, at)[n].offset) == Some(
            records_from(file, at)[n].payload,
        ),
    decreases n,
{
    let payload = record_at(file, at)->0;
    lemma_record_bounds(file, at);
    let next = at + RECORD_HEADER_LEN + payload.len();
    let first = seq![WalRecordView { offset: at, payload }];
    let rest = records_from(file, next);
    assert(records_from(file, at) == first + rest);
    if n == 0 {
        assert(records_from(file, at)[0] == first[0]);
        assert(records_from(file, at).take(0) =~= Seq::empty());
    } else {
        assert(records_from(file, at)[n] == rest[n - 1]);
        lemma_cut(file, next, n - 1);
        let offset = rest[n - 1].offset;
        lemma_same_record(file, file.take(offset), at);
        assert(records_from(file, at).take(n) =~= first + rest.take(n - 1));
    }
}

/// The header stays what it is while it is not written over.
proof fn lemma_same_header(a: Seq<u8>, b: Seq<u8>)
    requires
        header_verdict(a) is Intact,
        b.len() >= WAL_HEADER_LEN,
        forall|i: int| 0 <= i < WAL_HEADER_LEN ==> a[i] == b[i],
    ensures
        header_verdict(b) is Intact,
{
    assert(a.take(7) =~= b.take(7));
}

/// What was appended is read back. A record written at the end of a log, over
/// whatever an earlier append that failed left behind there, follows the records
/// that were there before; only what lies beyond it is still unknown.
pub proof fn law_append_is_read_back(file: Seq<u8>, end: int, payload: Seq<u8>)
    requires
        WAL_HEADER_LEN <= end <= file.len(),
        is_clean(file.take(end)),
        fits_record(payload.len()),
    ensures
        ({
            let written = file_after(file, FileOpView::WriteAt { offset: end, bytes: frame(payload) });
            let next = end + RECORD_HEADER_LEN + payload.len();
            &&& header_verdict(written) is Intact
            &&& next <= written.len()
            &&& is_clean(written.take(next))
            &&& records(written.take(next)) == records(file.take(end)).push(
                WalRecordView { offset: end, payload },
            )
            &&& records(written) == records(written.take(next)) + records_from(written, next)
            &&& file.len() == end ==> written.take(next) == written
        }),
{
    let old = file.take(end);
    let written = file_after(file, FileOpView::WriteAt { offset: end, bytes: frame(payload) });
    let next = end + RECORD_HEADER_LEN + payload.len();
    let at = WAL_HEADER_LEN as int;
    assert((file + zeros(end - file.len())).take(end) =~= old);
    assert(frame(payload).len() == RECORD_HEADER_LEN + payload.len());
    let new = written.take(next);
    assert(new =~= old + frame(payload));
    assert(new.subrange(end, next) =~= frame(payload));
    lemma_frame_is_record(new, end, payload);
    lemma_same_header(old, new);
    lemma_same_header(old, written);
    lemma_extend(old, new, at);
    reveal_with_fuel(records_from, 3);
    reveal_with_fuel(records_end, 3);
    assert(record_at(new, next) is None);
    assert(records_from(new, end) =~= seq![WalRecordView { offset: end, payload }]);
    assert(records(new) =~= records(old).push(WalRecordView { offset: end, payload }));
    lemma_extend(new, written, at);
    if file.len() == end {
        assert(new =~= written);
    }
}

/// A log file holds exactly the payloads that were appended to it, in order.
pub proof fn law_log_round_trips(payloads: Seq<Seq<u8>>)
    requires
        forall|i: int| 0 <= i < payloads.len() ==> fits_record((#[trigger] payloads[i]).len()),
    ensures
        is_clean(log_file(payloads)),
        records(log_file(payloads)).map_values(|r: WalRecordView| r.payload) == payloads,
    decreases payloads.len(),
{
    if payloads.len() == 0 {
        assert(WAL_MAGIC@.take(7) =~= WAL_MAGIC@.take(7));
        assert(records(log_file(payloads)).map_values(|r: WalRecordView| r.payload) =~= payloads);
    } else {
        let before = payloads.drop_last();
        let file = log_file(before);
        law_log_round_trips(before);
        assert(file.take(file.len() as int) =~= file);
        law_append_is_read_back(file, file.len() as int, payloads.last());
        let written = file_after(
            file,
            FileOpView::WriteAt { offset: file.len() as int, bytes: frame(payloads.last()) },
        );
        assert((file + zeros(0)).take(file.len() as int) =~= file);
        assert(written =~= log_file(payloads));
        assert(records(written).map_values(|r: WalRecordView| r.payload) =~= records(
            file,
        ).map_values(|r: WalRecordView| r.payload).push(payloads.last()));
        assert(before.push(payloads.last()) =~= payloads);
    }
}

/// A crash partway through an append costs that record and no other: recovery
/// gives every record that was there before, and ends where they ended.
pub proof fn law_torn_append_is_dropped(file: Seq<u8>, payload: Seq<u8>, written: int)
    requires
        is_clean(file),
        fits_record(payload.len()),
        0 <= written < frame(payload).len(),
    ensures
        header_verdict(file + frame(payload).take(written)) is Intact,
        records(file + frame(payload).take(written)) == records(file),
        records_end(file + frame(payload).take(written), WAL_HEADER_LEN as int) == file.len(),
{
    let f = frame(payload);
    let torn = file + f.take(written);
    let end = file.len() as int;
    lemma_end_bounds(file, WAL_HEADER_LEN as int);
    lemma_same_header(file, torn);
    lemma_extend(file, torn, WAL_HEADER_LEN as int);
    assert(record_at(torn, end) is None) by {
        if end + RECORD_HEADER_LEN <= torn.len() {
            lemma_be_round_trip(payload.len() as u32);
            assert(torn.subrange(end, end + 4) =~= f.subrange(0, 4));
            assert(f.subrange(0, 4) =~= be_bytes(payload.len() as u32));
        }
    }
    assert(records(file) + Seq::<WalRecordView>::empty() =~= records(file));
}

/// Recovery stops at a record whose checksum does not match and keeps what came
/// before it, however the bytes of its payload came to change.
pub proof fn law_corrupt_payload_ends_the_log(file: Seq<u8>, damaged: Seq<u8>, n: int)
    requires
        header_verdict(file) is Intact,
        0 <= n < records(file).len(),
        damaged.len() == file.len(),
        ({
            let hit = records(file)[n];
            let start = hit.offset + RECORD_HEADER_LEN;
            &&& forall|i: int|
                0 <= i < file.len() && !(start <= i < start + hit.payload.len()) ==> damaged[i]
                    == file[i]
            &&& crc32(damaged.subrange(start, start + hit.payload.len())) != crc32(hit.payload)
        }),
    ensures
        header_verdict(damaged) is Intact,
        records(damaged) == records(file).take(n),
        records_end(damaged, WAL_HEADER_LEN as int) == records(file)[n].offset,
{
    let at = WAL_HEADER_LEN as int;
    let hit = records(file)[n];
    lemma_cut(file, at, n);
    let good = file.take(hit.offset);
    assert(good =~= damaged.take(hit.offset));
    lemma_same_header(file, damaged);
    assert(good.is_prefix_of(damaged));
    lemma_extend(good, damaged, at);
    lemma_record_bounds(file, hit.offset);
    assert(record_at(damaged, hit.offset) is None) by {
        assert(damaged.subrange(hit.offset, hit.offset + 4) =~= file.subrange(
            hit.offset,
            hit.offset + 4,
        ));
        assert(damaged.subrange(hit.offset + 4, hit.offset + 8) =~= file.subrange(
            hit.offset + 4,
            hit.offset + 8,
        ));
    }
    assert(records(good) + Seq::<WalRecordView>::empty() =~= records(good));
}

/// Cutting the file at the offset of a record drops that record and everything
/// after it, and leaves a file that the next append can follow.
pub proof fn law_cut_drops_the_suffix(file: Seq<u8>, n: int)
    requires
        header_verdict(file) is Intact,
        0 <= n < records(file).len(),
    ensures
        ({
            let cut = file_after(file, FileOpView::SetLen { len: records(file)[n].offset });
            &&& cut == file.take(records(file)[n].offset)
            &&& is_clean(cut)
            &&& records(cut) == records(file).take(n)
        }),
{
    let offset = records(file)[n].offset;
    let cut = file_after(file, FileOpView::SetLen { len: offset });
    lemma_cut(file, WAL_HEADER_LEN as int, n);
    assert(cut =~= file.take(offset));
    lemma_same_header(file, cut);
}

/// Once the changes that opening asks for are made, the file is in order and
/// holds exactly the records that opening gave; a file of another format is left
/// as it was.
pub proof fn law_opening_repairs_the_file(file: Seq<u8>)
    ensures
        ({
            let repaired = file_after_ops(file, open_ops(file), open_ops(file).len() as int);
            match header_verdict(file) {
                HeaderVerdict::Fresh | HeaderVerdict::Torn => is_clean(repaired) && records(
                    repaired,
                ).len() == 0 && repaired.len() == WAL_HEADER_LEN,
                HeaderVerdict::Intact => {
                    &&& is_clean(repaired)
                    &&& records(repaired) == records(file)
                    &&& repaired.len() == records_end(file, WAL_HEADER_LEN as int)
                },
                _ => repaired == file,
            }
        }),
{
    reveal_with_fuel(file_after_ops, 3);
    let repaired = file_after_ops(file, open_ops(file), open_ops(file).len() as int);
    match header_verdict(file) {
        HeaderVerdict::Fresh => {
            assert(repaired =~= WAL_MAGIC@);
        },
        HeaderVerdict::Torn => {
            assert(repaired =~= WAL_MAGIC@);
        },
        HeaderVerdict::Intact => {
            lemma_trim(file, WAL_HEADER_LEN as int);
            let end = records_end(file, WAL_HEADER_LEN as int);
            assert(repaired =~= file.take(end));
            lemma_same_header(file, repaired);
        },
        _ => {},
    }
}

/// Opening a file that is in order changes nothing, and it stays in order: a
/// second recovery gives what the first one gave.
pub proof fn law_recovery_is_idempotent(file: Seq<u8>)
    requires
        header_verdict(file) is Fresh || header_verdict(file) is Torn || header_verdict(
            file,
        ) is Intact,
    ensures
        ({
            let repaired = file_after_ops(file, open_ops(file), open_ops(file).len() as int);
            &&& open_ops(repaired).len() == 0
            &&& header_verdict(file) is Intact ==> records(repaired) == records(file)
        }),
{
    law_opening_repairs_the_file(file);
}

/// A frame is the payload's length in four bytes, its checksum in four, and the payload.
pub proof fn law_frame_is_length_checksum_payload(payload: Seq<u8>)
    requires
        payload.len() <= 67_108_864,
    ensures
        frame(payload).len() == 8 + payload.len(),
        be_value(frame(payload).subrange(0, 4)) == payload.len(),
        be_value(frame(payload).subrange(4, 8)) == crc32(payload),
        frame(payload).skip(8) == payload,
{
    lemma_be_round_trip(payload.len() as u32);
    lemma_be_round_trip(crc32(payload));
    assert(frame(payload).subrange(0, 4) =~= be_bytes(payload.len() as u32));
    assert(frame(payload).subrange(4, 8) =~= be_bytes(crc32(payload)));
    assert(frame(payload).skip(8) =~= payload);
}

/// There is a record with that payload at that place exactly if the bytes there are the
/// payload's frame and the payload is within the limit: a payload that was framed is
/// found, and nothing is taken for a record that no frame could have been.
pub proof fn law_record_is_a_framed_payload(file: Seq<u8>, at: int, payload: Seq<u8>)
    ensures
        record_at(file, at) == Some(payload) <==> {
            &&& 0 <= at
            &&& at + 8 + payload.len() <= file.len()
            &&& payload.len() <= 67_108_864
            &&& file.subrange(at, at + 8 + payload.len()) == frame(payload)
        },
{
    if payload.len() <= 67_108_864 {
        law_frame_is_length_checksum_payload(payload);
    }
    if record_at(file, at) == Some(payload) {
        let whole = file.subrange(at, at + 8 + payload.len());
        let len_bytes = file.subrange(at, at + 4);
        let sum_bytes = file.subrange(at + 4, at + 8);
        law_big_endian_is_positional(0, len_bytes);
        law_big_endian_is_positional(0, sum_bytes);
        assert(whole =~= len_bytes + sum_bytes + payload);
        assert(whole =~= frame(payload));
    } else if 0 <= at && at + 8 + payload.len() <= file.len() && payload.len() <= 67_108_864
        && file.subrange(at, at + 8 + payload.len()) == frame(payload) {
        lemma_frame_is_record(file, at, payload);
    }
}

/// A run of records is as long as it can be: each record is intact, the first is where
/// the run starts, each of the others right after the one before it, and where the run
/// ends there is no intact record.
pub proof fn law_run_of_records_is_the_longest(file: Seq<u8>, at: int)
    ensures
        record_at(file, records_end(file, at)) is None,
        ({
            let run = records_from(file, at);
            &&& run.len() == 0 ==> records_end(file, at) == at
            &&& run.len() > 0 ==> run[0].offset == at && records_end(file, at) == run.last().offset
                + 8 + run.last().payload.len()
            &&& forall|i: int|
                0 <= i < run.len() ==> record_at(file, (#[trigger] run[i]).offset) == Some(
                    run[i].payload,
                )
            &&& forall|i: int|
                0 < i < run.len() ==> (#[trigger] run[i]).offset == run[i - 1].offset + 8 + run[i
                    - 1].payload.len()
        }),
    decreases file.len() - at,
{
    if let Some(payload) = record_at(file, at) {
        let next = at + RECORD_HEADER_LEN + payload.len();
        let run = records_from(file, at);
        let rest = records_from(file, next);
        law_run_of_records_is_the_longest(file, next);
        assert(run =~= seq![WalRecordView { offset: at, payload }] + rest);
        assert forall|i: int| 0 < i < run.len() implies run[i] == #[trigger] rest[i - 1] by {}
        assert forall|i: int| 0 <= i < run.len() implies record_at(
            file,
            (#[trigger] run[i]).offset,
        ) == Some(run[i].payload) by {
            if i > 0 {
                assert(run[i] == rest[i - 1]);
            }
        }
        assert forall|i: int| 0 < i < run.len() implies (#[trigger] run[i]).offset == run[i
            - 1].offset + 8 + run[i - 1].payload.len() by {
            assert(run[i] == rest[i - 1]);
            if i > 1 {
                assert(run[i - 1] == rest[i - 2]);
            }
        }
        if rest.len() > 0 {
            assert(run.last() == rest.last());
        }
    }
}

/// A log file is opened if it starts with the header, or with a part of it and ends
/// there. The header with another version in its last byte is told from anything else.
pub proof fn law_files_are_told_apart(file: Seq<u8>)
    ensures
        file.len() == 0 ==> header_verdict(file) is Fresh,
        0 < file.len() < 8 ==> {
            &&& file == WAL_MAGIC@.take(file.len() as int) ==> header_verdict(file) is Torn
            &&& file != WAL_MAGIC@.take(file.len() as int) ==> header_verdict(file) is Foreign
        },
        file.len() >= 8 ==> {
            &&& file.take(8) == WAL_MAGIC@ ==> header_verdict(file) is Intact
            &&& file.take(7) == WAL_MAGIC@.take(7) && file[7] != 2 ==> header_verdict(file) == (
            HeaderVerdict::OtherVersion { found: file[7] })
            &&& file.take(7) != WAL_MAGIC@.take(7) ==> header_verdict(file) is Foreign
        },
{
    if file.len() >= 8 && file.take(8) == WAL_MAGIC@ {
        assert(file.take(7) =~= file.take(8).take(7));
        assert(file[7] == file.take(8)[7]);
    }
}

/// Opening fails exactly for files of another format, with an error that names the
/// version if it is only that. A new file, or one whose header is cut short, is opened
/// with no records and room right after the header; any other with the longest run of
/// records after it.
pub proof fn law_opening_finds_the_longest_run(file: Seq<u8>)
    ensures
        file.len() >= 8 && file.take(8) == WAL_MAGIC@ ==> {
            &&& open_error(file) is None
            &&& open_records(file) == records_from(file, 8)
            &&& open_end(file) == records_end(file, 8)
        },
        file.len() < 8 && file == WAL_MAGIC@.take(file.len() as int) ==> {
            &&& open_error(file) is None
            &&& open_records(file).len() == 0
            &&& open_end(file) == 8
        },
        file.len() < 8 && file != WAL_MAGIC@.take(file.len() as int) ==> open_error(file) == Some(
            WalError::NotThisFormat,
        ),
        file.len() >= 8 && file.take(7) != WAL_MAGIC@.take(7) ==> open_error(file) == Some(
            WalError::NotThisFormat,
        ),
        file.len() >= 8 && file.take(7) == WAL_MAGIC@.take(7) && file[7] != 2 ==> open_error(file)
            == Some(WalError::UnsupportedVersion { found: file[7] }),
{
    law_files_are_told_apart(file);
    assert(WAL_MAGIC@.take(0) =~= Seq::empty());
    if file.len() == 0 {
        assert(file =~= Seq::empty());
    }
}

/// A file that is in order is left alone, and so is one of another format.
pub proof fn law_sound_file_is_left_alone(file: Seq<u8>)
    ensures
        is_clean(file) ==> open_ops(file).len() == 0,
        open_error(file) is Some ==> open_ops(file).len() == 0,
{
}

/// A payload can be stored exactly if it is no longer than 64 MiB; the error for a longer
/// one gives its length, if that fits the prefix.
pub proof fn law_payloads_up_to_the_limit_fit(len: nat)
    ensures
        fits_record(len) <==> len <= 67_108_864,
        67_108_864 < len <= u32::MAX ==> length_error(len) == (WalError::RecordTooLong {
            len: len as u32,
        }),
        len > u32::MAX ==> length_error(len) == WalError::LengthOverflow,
{
}

/// A payload of up to 64 MiB is written as its frame, where it is told to; a longer one is
/// not written. Once the change is made, the record is there, and what was before it in
/// the file is as it was.
pub proof fn law_payload_is_written_as_a_record(file: Seq<u8>, offset: int, payload: Seq<u8>)
    requires
        0 <= offset <= file.len(),
    ensures
        payload.len() > 67_108_864 ==> append_op(offset, payload) is Err,
        payload.len() <= 67_108_864 ==> {
            &&& append_op(offset, payload) matches Ok(op)
            &&& record_at(file_after(file, op), offset) == Some(payload)
            &&& file_after(file, op).take(offset) == file.take(offset)
        },
{
    if payload.len() <= 67_108_864 {
        let after = file_after(file, append_op(offset, payload)->Ok_0);
        assert(after.subrange(offset, offset + frame(payload).len()) =~= frame(payload));
        assert(after.take(offset) =~= file.take(offset));
        lemma_frame_is_record(after, offset, payload);
    }
}

/// A file that cannot be opened is bad data, and the text for the operator starts with
/// its path; a payload that cannot be stored is bad input, and there is a text for that
/// too; only a failed file change has none.
pub proof fn law_errors_say_who_is_at_fault(file: Seq<u8>, len: nat, path: Seq<char>)
    ensures
        open_error(file) matches Some(e) ==> {
            &&& e.spec_kind() == WalErrorKind::InvalidData
            &&& e.spec_message(path) matches Some(text)
            &&& path.len() <= text.len()
            &&& text.take(path.len() as int) == path
        },
        !fits_record(len) ==> {
            &&& length_error(len).spec_kind() == WalErrorKind::InvalidInput
            &&& length_error(len).spec_message(path) is Some
        },
        WalError::Io.spec_kind() == WalErrorKind::Io,
        WalError::Io.spec_message(path) is None,
{
    if let Some(e) = open_error(file) {
        let text = e.spec_message(path)->0;
        assert(text.take(path.len() as int) =~= path);
    }
}

/// A record's payload is never longer than the limit, so a garbage length prefix
/// cannot make recovery ask for more.
pub proof fn law_recovered_payloads_are_bounded(file: Seq<u8>, at: int)
    requires
        record_at(file, at) is Some,
    ensures
        record_at(file, at)->0.len() <= MAX_RECORD_LEN,
{
}

} // verus!
