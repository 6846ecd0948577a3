//! The write-ahead log file: an 8-byte header, then length-prefixed,
//! checksummed records.
//!
//! Nothing here touches a file. [`Wal`] decides what the file's bytes mean and
//! which changes to make to it; the caller reads the file, performs each
//! [`FileOp`], flushes it, and reports back whether that worked.

use crate::bytes::{be_bytes, be_value, from_be_bytes, to_be_bytes};
use crate::checksum::crc32;
use crate::text::{decimal, decimal_text};
use vstd::prelude::*;
use vstd::slice::slice_subrange;
use vstd::slice::slice_to_vec;
use vstd::string::StringExecFns;

verus! {

/// Magic bytes plus format version at the head of every log file: `KVWALOG` in
/// ASCII, then the version. Pre-checksum logs (v1) had no header at all, so their
/// first bytes are a record length prefix, which is how the two are told apart.
pub const WAL_MAGIC: [u8; 8] = [0x4b, 0x56, 0x57, 0x41, 0x4c, 0x4f, 0x47, 0x02];

/// Length of the file header.
pub const WAL_HEADER_LEN: u64 = 8;

/// Upper bound on one record's payload. A garbage length prefix from a torn
/// write would otherwise ask for gigabytes before the checksum ever gets a
/// chance to reject it.
pub const MAX_RECORD_LEN: u32 = 64 * 1024 * 1024;

/// Bytes of framing ahead of each payload: `len: u32 | crc32: u32`.
pub const RECORD_HEADER_LEN: u64 = 8;

/// One recovered record. `offset` is where its length prefix starts, which is
/// what a caller needs to truncate the log back to this point.
#[derive(Debug, Clone, PartialEq)]
pub struct WalRecord {
    pub offset: u64,
    pub payload: Vec<u8>,
}

#[verifier::ext_equal]
pub struct WalRecordView {
    pub offset: int,
    pub payload: Seq<u8>,
}

impl View for WalRecord {
    type V = WalRecordView;

    open spec fn view(&self) -> WalRecordView {
        WalRecordView { offset: self.offset as int, payload: self.payload@ }
    }
}

/// The records as mathematical values.
pub open spec fn records_view(records: Seq<WalRecord>) -> Seq<WalRecordView> {
    records.map_values(|r: WalRecord| r@)
}

/// One change to the log file. It counts as performed only once the file has
/// been flushed to disk after it.
#[derive(Debug, Clone, PartialEq)]
pub enum FileOp {
    /// Overwrite the file from `offset` on with `bytes`, growing it if needed.
    WriteAt { offset: u64, bytes: Vec<u8> },
    /// Cut the file (or pad it with zeros) to `len` bytes.
    SetLen { len: u64 },
}

#[verifier::ext_equal]
pub enum FileOpView {
    WriteAt { offset: int, bytes: Seq<u8> },
    SetLen { len: int },
}

impl View for FileOp {
    type V = FileOpView;

    open spec fn view(&self) -> FileOpView {
        match *self {
            FileOp::WriteAt { offset, bytes } => FileOpView::WriteAt {
                offset: offset as int,
                bytes: bytes@,
            },
            FileOp::SetLen { len } => FileOpView::SetLen { len: len as int },
        }
    }
}

/// The operations as mathematical values.
pub open spec fn ops_view(ops: Seq<FileOp>) -> Seq<FileOpView> {
    ops.map_values(|op: FileOp| op@)
}

/// Why the log refused to open, or refused an operation.
#[derive(Debug, Clone, Copy, PartialEq, Eq, Structural)]
pub enum WalError {
    /// The header is ours, but of another format version.
    UnsupportedVersion { found: u8 },
    /// The file does not start with the header at all.
    NotThisFormat,
    /// The payload's length does not fit the 32-bit length prefix.
    LengthOverflow,
    /// The payload is longer than [`MAX_RECORD_LEN`].
    RecordTooLong { len: u32 },
    /// The file change was attempted and failed.
    Io,
}

/// Which side is at fault.
#[derive(Debug, Clone, Copy, PartialEq, Eq, Structural)]
pub enum WalErrorKind {
    /// What is on disk cannot be used.
    InvalidData,
    /// What the caller handed in cannot be stored.
    InvalidInput,
    /// The disk failed.
    Io,
}

impl WalError {
    pub open spec fn spec_kind(self) -> WalErrorKind {
        match self {
            WalError::UnsupportedVersion { .. } | WalError::NotThisFormat =>
                WalErrorKind::InvalidData,
            WalError::LengthOverflow | WalError::RecordTooLong { .. } => WalErrorKind::InvalidInput,
            WalError::Io => WalErrorKind::Io,
        }
    }

    /// The text for the operator. A failed file change has none here: the
    /// operating system's own error says more.
    pub open spec fn spec_message(self, path: Seq<char>) -> Option<Seq<char>> {
        match self {
            WalError::UnsupportedVersion { found } => Some(
                path + ": WAL format version "@ + decimal(found as nat)
                    + " is not supported by this build (expected "@ + decimal(WAL_MAGIC[7] as nat)
                    + "). Every node in a cluster must run the same build."@,
            ),
            WalError::NotThisFormat => Some(
                path
                    + ": not a v2 WAL — this looks like a pre-checksum (v1) log, whose records carry no term, index, or CRC and cannot be read as Raft log entries. Move it aside (e.g. `mv "@
                    + path + " "@ + path + ".v1.bak`) and restart to begin a fresh log."@,
            ),
            WalError::LengthOverflow => Some("WAL record exceeds u32 length prefix"@),
            WalError::RecordTooLong { len } => Some(
                "WAL record of "@ + decimal(len as nat) + " bytes exceeds the "@ + decimal(
                    MAX_RECORD_LEN as nat,
                ) + " byte limit"@,
            ),
            WalError::Io => None,
        }
    }

    pub fn kind(&self) -> (kind: WalErrorKind)
        ensures
            kind == self.spec_kind(),
    {
        match self {
            WalError::UnsupportedVersion { .. } => WalErrorKind::InvalidData,
            WalError::NotThisFormat => WalErrorKind::InvalidData,
            WalError::LengthOverflow => WalErrorKind::InvalidInput,
            WalError::RecordTooLong { .. } => WalErrorKind::InvalidInput,
            WalError::Io => WalErrorKind::Io,
        }
    }

    /// What to tell the operator about this error of the log at `path`.
    pub fn message(&self, path: &str) -> (message: Option<String>)
        ensures
            match message {
                Some(text) => self.spec_message(path@) == Some(text@),
                None => self.spec_message(path@) is None,
            },
    {
        let mut text: String = String::new();
        match self {
            WalError::UnsupportedVersion { found } => {
                text.append(path);
                text.append(": WAL format version ");
                text.append(decimal_text(*found as u64).as_str());
                text.append(" is not supported by this build (expected ");
                text.append(decimal_text(WAL_MAGIC[7] as u64).as_str());
                text.append("). Every node in a cluster must run the same build.");
            },
            WalError::NotThisFormat => {
                text.append(path);
                text.append(
                    ": not a v2 WAL — this looks like a pre-checksum (v1) log, whose records carry no term, index, or CRC and cannot be read as Raft log entries. Move it aside (e.g. `mv ",
                );
                text.append(path);
                text.append(" ");
                text.append(path);
                text.append(".v1.bak`) and restart to begin a fresh log.");
            },
            WalError::LengthOverflow => {
                text.append("WAL record exceeds u32 length prefix");
            },
            WalError::RecordTooLong { len } => {
                text.append("WAL record of ");
                text.append(decimal_text(*len as u64).as_str());
                text.append(" bytes exceeds the ");
                text.append(decimal_text(MAX_RECORD_LEN as u64).as_str());
                text.append(" byte limit");
            },
            WalError::Io => {
                return None;
            },
        }
        assert(Some(text@) =~~= self.spec_message(path@));
        Some(text)
    }
}

/// What the first bytes of a log file say about it.
pub enum HeaderVerdict {
    /// The file is empty: it was just created.
    Fresh,
    /// The header is there, in full.
    Intact,
    /// The file is a proper prefix of the header: the process died between
    /// creating the file and writing the header.
    Torn,
    /// Our magic with another version byte.
    OtherVersion { found: u8 },
    /// Anything else, such as a pre-checksum log.
    Foreign,
}

/// Classifies a log file by its first bytes.
pub open spec fn header_verdict(contents: Seq<u8>) -> HeaderVerdict {
    if contents.len() == 0 {
        HeaderVerdict::Fresh
    } else if contents.len() < WAL_HEADER_LEN {
        if contents == WAL_MAGIC@.take(contents.len() as int) {
            HeaderVerdict::Torn
        } else {
            HeaderVerdict::Foreign
        }
    } else if contents.take(7) != WAL_MAGIC@.take(7) {
        HeaderVerdict::Foreign
    } else if contents[7] != WAL_MAGIC@[7] {
        HeaderVerdict::OtherVersion { found: contents[7] }
    } else {
        HeaderVerdict::Intact
    }
}

/// The bytes of one record: length, checksum, payload.
pub open spec fn frame(payload: Seq<u8>) -> Seq<u8> {
    be_bytes(payload.len() as u32) + be_bytes(crc32(payload)) + payload
}

/// The payload of the intact record that starts at `at`, if there is one. A
/// record that is cut short, claims to be longer than the limit, or fails its
/// checksum is no record.
pub open spec fn record_at(contents: Seq<u8>, at: int) -> Option<Seq<u8>> {
    if at < 0 || at + RECORD_HEADER_LEN > contents.len() {
        None
    } else {
        let len = be_value(contents.subrange(at, at + 4)) as int;
        let sum = be_value(contents.subrange(at + 4, at + 8));
        if len > MAX_RECORD_LEN || at + RECORD_HEADER_LEN + len > contents.len() {
            None
        } else {
            let payload = contents.subrange(at + RECORD_HEADER_LEN, at + RECORD_HEADER_LEN + len);
            if crc32(payload) == sum {
                Some(payload)
            } else {
                None
            }
        }
    }
}

/// The run of intact records that starts at `at`.
pub open spec fn records_from(contents: Seq<u8>, at: int) -> Seq<WalRecordView>
    decreases contents.len() - at,
{
    match record_at(contents, at) {
        None => Seq::empty(),
        Some(payload) => seq![WalRecordView { offset: at, payload }] + records_from(
            contents,
            at + RECORD_HEADER_LEN + payload.len(),
        ),
    }
}

/// Where the run of intact records that starts at `at` ends.
pub open spec fn records_end(contents: Seq<u8>, at: int) -> int
    decreases contents.len() - at,
{
    match record_at(contents, at) {
        None => at,
        Some(payload) => records_end(contents, at + RECORD_HEADER_LEN + payload.len()),
    }
}

/// The records start where the file header ends and do not overlap.
pub open spec fn layout_ok(offsets: Seq<int>, end: int) -> bool {
    &&& end >= WAL_HEADER_LEN
    &&& forall|i: int|
        0 <= i < offsets.len() ==> (#[trigger] offsets[i]) >= WAL_HEADER_LEN + RECORD_HEADER_LEN * i
    &&& forall|i: int, j: int|
        0 <= i < j < offsets.len() ==> (#[trigger] offsets[i]) + RECORD_HEADER_LEN
            <= #[trigger] offsets[j]
    &&& offsets.len() > 0 ==> offsets.last() + RECORD_HEADER_LEN <= end
}

/// The offsets of the records.
pub open spec fn record_offsets(records: Seq<WalRecordView>) -> Seq<int> {
    records.map_values(|r: WalRecordView| r.offset)
}

/// The changes that opening a log file asks for.
pub open spec fn open_ops(file: Seq<u8>) -> Seq<FileOpView> {
    match header_verdict(file) {
        HeaderVerdict::Fresh => seq![FileOpView::WriteAt { offset: 0, bytes: WAL_MAGIC@ }],
        HeaderVerdict::Torn => seq![
            FileOpView::WriteAt { offset: 0, bytes: WAL_MAGIC@ },
            FileOpView::SetLen { len: WAL_HEADER_LEN as int },
        ],
        HeaderVerdict::Intact => if records_end(file, WAL_HEADER_LEN as int) < file.len() {
            seq![FileOpView::SetLen { len: records_end(file, WAL_HEADER_LEN as int) }]
        } else {
            Seq::empty()
        },
        _ => Seq::empty(),
    }
}

/// Why a log file cannot be opened, if it cannot.
pub open spec fn open_error(file: Seq<u8>) -> Option<WalError> {
    match header_verdict(file) {
        HeaderVerdict::OtherVersion { found } => Some(WalError::UnsupportedVersion { found }),
        HeaderVerdict::Foreign => Some(WalError::NotThisFormat),
        _ => None,
    }
}

/// The records that opening a log file finds: those of a file with a whole header.
pub open spec fn open_records(file: Seq<u8>) -> Seq<WalRecordView> {
    match header_verdict(file) {
        HeaderVerdict::Intact => records_from(file, WAL_HEADER_LEN as int),
        _ => Seq::empty(),
    }
}

/// Where the next record goes once the file is open.
pub open spec fn open_end(file: Seq<u8>) -> int {
    match header_verdict(file) {
        HeaderVerdict::Intact => records_end(file, WAL_HEADER_LEN as int),
        _ => WAL_HEADER_LEN as int,
    }
}

/// Whether a payload of this length can be stored.
pub open spec fn fits_record(len: nat) -> bool {
    len <= MAX_RECORD_LEN
}

/// The file change that writes a record at `offset`, if the payload can be stored.
pub open spec fn append_op(offset: int, payload: Seq<u8>) -> Result<FileOpView, WalError> {
    if fits_record(payload.len()) {
        Ok(FileOpView::WriteAt { offset, bytes: frame(payload) })
    } else {
        Err(length_error(payload.len()))
    }
}

/// The error for a payload that cannot be stored.
pub open spec fn length_error(len: nat) -> WalError {
    if len > u32::MAX {
        WalError::LengthOverflow
    } else {
        WalError::RecordTooLong { len: len as u32 }
    }
}

/// An append-only log of length-prefixed, checksummed records.
///
/// The frame is a pure integrity envelope: it knows nothing about what the
/// payload means, so term and index checks belong to the caller that decodes
/// it. Only the end of the last record is kept in memory.
#[derive(Debug)]
pub struct Wal {
    path: String,
    end: u64,
}

impl Wal {
    /// The path the log was opened at.
    pub closed spec fn spec_path(&self) -> Seq<char> {
        self.path@
    }

    /// One past the last record.
    pub closed spec fn spec_end(&self) -> int {
        self.end as int
    }

    /// The end is a file offset.
    pub proof fn lemma_end(&self)
        ensures
            0 <= self.spec_end() <= u64::MAX,
    {
    }

    /// Opens the log whose file holds `contents` (empty for a file that was
    /// just created), returning every intact record in order and the changes
    /// that must be made to the file before it is used.
    ///
    /// Recovery stops at the first record that is short, over-long, or fails
    /// its checksum, and cuts the file there: a crash partway through an
    /// append leaves exactly that shape. A file of another format is refused,
    /// with nothing to change in it.
    pub fn open(path: String, contents: &[u8]) -> (opened: Result<
        (Wal, Vec<WalRecord>, Vec<FileOp>),
        WalError,
    >)
        ensures
            match opened {
                Ok((wal, records, ops)) => {
                    &&& wal.spec_path() == path@
                    &&& ops_view(ops@) == open_ops(contents@)
                    &&& layout_ok(record_offsets(records_view(records@)), wal.spec_end())
                    &&& open_error(contents@) is None
                    &&& wal.spec_end() == open_end(contents@)
                    &&& records_view(records@) == open_records(contents@)
                },
                Err(e) => open_error(contents@) == Some(e),
            },
    {
        let mut ops: Vec<FileOp> = Vec::new();
        let mut records: Vec<WalRecord> = Vec::new();

        match Wal::check_header(contents) {
            HeaderVerdict::Fresh => {
                ops.push(FileOp::WriteAt { offset: 0, bytes: magic() });
                assert(ops_view(ops@) =~= seq![
                    FileOpView::WriteAt { offset: 0, bytes: WAL_MAGIC@ },
                ]);
                Ok((Wal { path, end: WAL_HEADER_LEN }, records, ops))
            },
            HeaderVerdict::Torn => {
                // Nothing can have been appended yet, so finishing the header
                // is safe.
                ops.push(FileOp::WriteAt { offset: 0, bytes: magic() });
                ops.push(FileOp::SetLen { len: WAL_HEADER_LEN });
                assert(ops_view(ops@) =~= seq![
                    FileOpView::WriteAt { offset: 0, bytes: WAL_MAGIC@ },
                    FileOpView::SetLen { len: WAL_HEADER_LEN as int },
                ]);
                Ok((Wal { path, end: WAL_HEADER_LEN }, records, ops))
            },
            HeaderVerdict::OtherVersion { found } => Err(WalError::UnsupportedVersion { found }),
            HeaderVerdict::Foreign => Err(WalError::NotThisFormat),
            HeaderVerdict::Intact => {
                let total: usize = contents.len();
                let mut good_end: usize = WAL_HEADER_LEN as usize;
                let ghost start = WAL_HEADER_LEN as int;
                assert(records_view(records@) =~= Seq::empty());
                assert(records_view(records@) + records_from(contents@, start) =~= records_from(
                    contents@,
                    start,
                ));
                loop
                    invariant_except_break
                        records_view(records@) + records_from(contents@, good_end as int)
                            == records_from(contents@, start),
                    invariant
                        total == contents@.len(),
                        start <= good_end <= total,
                        records_end(contents@, good_end as int) == records_end(contents@, start),
                    ensures
                        records_view(records@) == records_from(contents@, start),
                        good_end == records_end(contents@, start),
                    decreases total - good_end,
                {
                    match Wal::read_record(contents, good_end) {
                        Some(payload) => {
                            let next: usize = good_end + RECORD_HEADER_LEN as usize + payload.len();
                            let record = WalRecord { offset: good_end as u64, payload };
                            let ghost before = records_view(records@);
                            let ghost rest = records_from(contents@, next as int);
                            records.push(record);
                            proof {
                                assert(records_view(records@) =~= before.push(record@));
                                assert(before.push(record@) + rest =~= before + (seq![record@]
                                    + rest));
                            }
                            good_end = next;
                        },
                        None => {
                            assert(records_view(records@) + Seq::<WalRecordView>::empty()
                                =~= records_view(records@));
                            break;
                        },
                    }
                }

                proof {
                    lemma_records_layout(contents@, start);
                    lemma_end_bounds(contents@, start);
                }
                if good_end < total {
                    ops.push(FileOp::SetLen { len: good_end as u64 });
                    assert(ops_view(ops@) =~= seq![FileOpView::SetLen { len: good_end as int }]);
                } else {
                    assert(ops_view(ops@) =~= Seq::empty());
                }
                Ok((Wal { path, end: good_end as u64 }, records, ops))
            },
        }
    }

    /// Rejects anything that isn't a log of this version before a single record
    /// is read. A file of another format is left untouched on disk: the operator
    /// decides what happens to it, because there is no safe way to reinterpret it.
    pub fn check_header(contents: &[u8]) -> (verdict: HeaderVerdict)
        ensures
            verdict == header_verdict(contents@),
    {
        if contents.len() == 0 {
            return HeaderVerdict::Fresh;
        }
        let same: usize = common_prefix(contents);
        if same == contents.len() && same < 8 {
            assert(contents@ =~= WAL_MAGIC@.take(contents@.len() as int));
            return HeaderVerdict::Torn;
        }
        if contents.len() < 8 {
            assert(contents@ != WAL_MAGIC@.take(contents@.len() as int));
            return HeaderVerdict::Foreign;
        }
        if same < 7 {
            assert(contents@.take(7)[same as int] != WAL_MAGIC@.take(7)[same as int]);
            return HeaderVerdict::Foreign;
        }
        assert(contents@.take(7) =~= WAL_MAGIC@.take(7));
        if same < 8 {
            HeaderVerdict::OtherVersion { found: contents[7] }
        } else {
            HeaderVerdict::Intact
        }
    }

    /// Reads one record at `at`. `None` means the log ends there, cleanly or
    /// otherwise; either way the caller truncates to this point.
    pub fn read_record(contents: &[u8], at: usize) -> (payload: Option<Vec<u8>>)
        requires
            at <= contents@.len(),
        ensures
            match payload {
                Some(bytes) => record_at(contents@, at as int) == Some(bytes@),
                None => record_at(contents@, at as int) is None,
            },
    {
        let header: usize = RECORD_HEADER_LEN as usize;
        if contents.len() - at < header {
            return None;
        }
        let len_bytes: [u8; 4] = [contents[at], contents[at + 1], contents[at + 2], contents[at + 3]];
        let sum_bytes: [u8; 4] = [
            contents[at + 4],
            contents[at + 5],
            contents[at + 6],
            contents[at + 7],
        ];
        assert(len_bytes@ =~= contents@.subrange(at as int, at + 4));
        assert(sum_bytes@ =~= contents@.subrange(at + 4, at + 8));
        let len: u32 = from_be_bytes(len_bytes);
        let expected: u32 = from_be_bytes(sum_bytes);

        if len > MAX_RECORD_LEN {
            return None;
        }
        if contents.len() - at - header < len as usize {
            return None;
        }
        let payload = slice_subrange(contents, at + header, at + header + len as usize);
        if crc32fast::hash(payload) != expected {
            return None;
        }
        Some(slice_to_vec(payload))
    }

    /// The file change that appends `payload` at the end of the log.
    pub fn frame(&self, payload: &[u8]) -> (op: Result<FileOp, WalError>)
        ensures
            match op {
                Ok(op) => append_op(self.spec_end(), payload@) == Ok::<FileOpView, WalError>(op@),
                Err(e) => append_op(self.spec_end(), payload@) == Err::<FileOpView, WalError>(e),
            },
    {
        Wal::frame_at(self.end, payload)
    }

    /// The file change that writes a record with `payload` at `offset`.
    pub fn frame_at(offset: u64, payload: &[u8]) -> (op: Result<FileOp, WalError>)
        ensures
            match op {
                Ok(op) => append_op(offset as int, payload@) == Ok::<FileOpView, WalError>(op@),
                Err(e) => append_op(offset as int, payload@) == Err::<FileOpView, WalError>(e),
            },
    {
        let len: u32 = record_len(payload)?;
        let mut bytes: Vec<u8> = Vec::new();
        let len_bytes = to_be_bytes(len);
        let sum_bytes = to_be_bytes(crc32fast::hash(payload));
        bytes.extend_from_slice(&len_bytes);
        bytes.extend_from_slice(&sum_bytes);
        bytes.extend_from_slice(payload);
        assert(bytes@ =~= frame(payload@));
        Ok(FileOp::WriteAt { offset, bytes })
    }

    /// Appends one record, returning the offset it starts at. `written` says
    /// whether the change that [`Wal::frame`] gives for this payload reached the
    /// disk; if it did not, the log still ends where it did.
    pub fn append(&mut self, payload: &[u8], written: bool) -> (offset: Result<u64, WalError>)
        requires
            fits_record(payload@.len()) ==> old(self).spec_end() + RECORD_HEADER_LEN
                + payload@.len() <= u64::MAX,
        ensures
            final(self).spec_path() == old(self).spec_path(),
            match offset {
                Ok(at) => {
                    &&& fits_record(payload@.len())
                    &&& written
                    &&& at == old(self).spec_end()
                    &&& final(self).spec_end() == at + RECORD_HEADER_LEN + payload@.len()
                },
                Err(e) => {
                    &&& final(self).spec_end() == old(self).spec_end()
                    &&& if fits_record(payload@.len()) {
                        !written && e == WalError::Io
                    } else {
                        e == length_error(payload@.len())
                    }
                },
            },
    {
        let offset: u64 = self.end;
        let len: u32 = record_len(payload)?;
        if !written {
            return Err(WalError::Io);
        }
        self.end = offset + RECORD_HEADER_LEN + len as u64;
        Ok(offset)
    }

    /// The file change that drops everything from `offset` on.
    pub fn cut(offset: u64) -> (op: FileOp)
        ensures
            op@ == (FileOpView::SetLen { len: offset as int }),
    {
        FileOp::SetLen { len: offset }
    }

    /// Drops everything from `offset` on. Used to remove a diverged suffix once
    /// a leader's log disagrees with ours. `performed` says whether the change
    /// that [`Wal::cut`] gives reached the disk.
    pub fn truncate_from(&mut self, offset: u64, performed: bool) -> (done: Result<(), WalError>)
        ensures
            final(self).spec_path() == old(self).spec_path(),
            performed ==> done is Ok && final(self).spec_end() == offset,
            !performed ==> done == Err::<(), WalError>(WalError::Io) && final(self).spec_end()
                == old(self).spec_end(),
    {
        if !performed {
            return Err(WalError::Io);
        }
        self.end = offset;
        Ok(())
    }

    /// Offset one past the last record: where the next append will land.
    pub fn end_offset(&self) -> (end: u64)
        ensures
            end == self.spec_end(),
    {
        self.end
    }

    pub fn path(&self) -> (path: &str)
        ensures
            path@ == self.spec_path(),
    {
        self.path.as_str()
    }
}

/// The payload's length as it goes into the length prefix.
fn record_len(payload: &[u8]) -> (len: Result<u32, WalError>)
    ensures
        match len {
            Ok(len) => fits_record(payload@.len()) && len == payload@.len(),
            Err(e) => !fits_record(payload@.len()) && e == length_error(payload@.len()),
        },
{
    if payload.len() as u64 > 0xffff_ffff {
        return Err(WalError::LengthOverflow);
    }
    let len: u32 = payload.len() as u32;
    if len > MAX_RECORD_LEN {
        return Err(WalError::RecordTooLong { len });
    }
    Ok(len)
}

/// How many leading bytes of `contents` agree with the header.
fn common_prefix(contents: &[u8]) -> (n: usize)
    ensures
        n <= 8,
        n <= contents@.len(),
        forall|i: int| 0 <= i < n ==> contents@[i] == WAL_MAGIC@[i],
        n < 8 && n < contents@.len() ==> contents@[n as int] != WAL_MAGIC@[n as int],
{
    let mut n: usize = 0;
    while n < 8 && n < contents.len() && contents[n] == WAL_MAGIC[n]
        invariant
            n <= 8,
            n <= contents@.len(),
            forall|i: int| 0 <= i < n ==> contents@[i] == WAL_MAGIC@[i],
        decreases 8 - n,
    {
        n += 1;
    }
    n
}

/// The header as a vector.
fn magic() -> (bytes: Vec<u8>)
    ensures
        bytes@ == WAL_MAGIC@,
{
    let bytes = slice_to_vec(&WAL_MAGIC);
    bytes
}

/// The record at `at` is within the file.
pub proof fn lemma_record_bounds(file: Seq<u8>, at: int)
    requires
        record_at(file, at) is Some,
    ensures
        0 <= at,
        at + RECORD_HEADER_LEN + record_at(file, at)->0.len() <= file.len(),
{
}

/// The run of records ends within the file.
pub proof fn lemma_end_bounds(file: Seq<u8>, at: int)
    requires
        0 <= at <= file.len(),
    ensures
        at <= records_end(file, at) <= file.len(),
    decreases file.len() - at,
{
    if let Some(payload) = record_at(file, at) {
        lemma_end_bounds(file, at + RECORD_HEADER_LEN + payload.len());
    }
}

/// The records of a file start after the header, and none overlaps another.
pub proof fn lemma_records_layout(file: Seq<u8>, at: int)
    requires
        0 <= at <= file.len(),
    ensures
        forall|i: int|
            0 <= i < records_from(file, at).len() ==> {
                &&& at + RECORD_HEADER_LEN * i <= (#[trigger] records_from(file, at)[i]).offset
                &&& records_from(file, at)[i].offset + RECORD_HEADER_LEN
                    + records_from(file, at)[i].payload.len() <= records_end(file, at)
            },
        forall|i: int, j: int|
            0 <= i < j < records_from(file, at).len() ==> (#[trigger] records_from(
                file,
                at,
            )[i]).offset + RECORD_HEADER_LEN <= (#[trigger] records_from(file, at)[j]).offset,
    decreases file.len() - at,
{
    if let Some(payload) = record_at(file, at) {
        lemma_record_bounds(file, at);
        let next = at + RECORD_HEADER_LEN + payload.len();
        let first = seq![WalRecordView { offset: at, payload }];
        let rest = records_from(file, next);
        lemma_records_layout(file, next);
        lemma_end_bounds(file, next);
        assert forall|i: int| 0 <= i < records_from(file, at).len() implies {
            &&& at + RECORD_HEADER_LEN * i <= (#[trigger] records_from(file, at)[i]).offset
            &&& records_from(file, at)[i].offset + RECORD_HEADER_LEN + records_from(
                file,
                at,
            )[i].payload.len() <= records_end(file, at)
        } by {
            if i > 0 {
                assert(records_from(file, at)[i] == rest[i - 1]);
            }
        }
        assert forall|i: int, j: int| 0 <= i < j < records_from(file, at).len() implies (
        #[trigger] records_from(file, at)[i]).offset + RECORD_HEADER_LEN <= (
        #[trigger] records_from(file, at)[j]).offset by {
            assert(records_from(file, at)[j] == rest[j - 1]);
            if i > 0 {
                assert(records_from(file, at)[i] == rest[i - 1]);
            }
        }
    }
}

} // verus!
