use kv_store::wal::{
    FileOp, HeaderVerdict, Wal, WalError, WalErrorKind, WalRecord, MAX_RECORD_LEN,
    RECORD_HEADER_LEN, WAL_MAGIC,
};

/// A log file that lives in memory.
struct Disk {
    bytes: Vec<u8>,
}

impl Disk {
    fn new() -> Disk {
        Disk { bytes: Vec::new() }
    }

    fn perform(&mut self, op: &FileOp) {
        match op {
            FileOp::WriteAt { offset, bytes } => {
                let start = *offset as usize;
                if self.bytes.len() < start + bytes.len() {
                    self.bytes.resize(start + bytes.len(), 0);
                }
                self.bytes[start..start + bytes.len()].copy_from_slice(bytes);
            }
            FileOp::SetLen { len } => self.bytes.resize(*len as usize, 0),
        }
    }

    fn open(&mut self) -> Result<(Wal, Vec<WalRecord>), WalError> {
        let (wal, records, ops) = Wal::open("wal.log".to_string(), &self.bytes)?;
        for op in &ops {
            self.perform(op);
        }
        Ok((wal, records))
    }

    fn append(&mut self, wal: &mut Wal, payload: &[u8]) -> u64 {
        let op = wal.frame(payload).unwrap();
        self.perform(&op);
        wal.append(payload, true).unwrap()
    }

    fn truncate(&mut self, wal: &mut Wal, offset: u64) {
        self.perform(&Wal::cut(offset));
        wal.truncate_from(offset, true).unwrap();
    }
}

fn payloads(records: &[WalRecord]) -> Vec<Vec<u8>> {
    records.iter().map(|r| r.payload.clone()).collect()
}

#[test]
fn wal_round_trips_records() {
    let mut disk = Disk::new();
    let (mut wal, records) = disk.open().unwrap();
    assert!(records.is_empty(), "a fresh log has no records");

    for i in 0..5u8 {
        disk.append(&mut wal, &[i, i, i]);
    }

    let (_wal, records) = disk.open().unwrap();
    assert_eq!(
        payloads(&records),
        (0..5u8).map(|i| vec![i, i, i]).collect::<Vec<_>>()
    );
}

#[test]
fn wal_recovers_from_a_torn_trailing_record() {
    let mut disk = Disk::new();
    let (mut wal, _) = disk.open().unwrap();
    for i in 0..3u8 {
        disk.append(&mut wal, &[i; 16]);
    }
    let good_end = wal.end_offset();

    // A crash partway through a fourth append: a length prefix and some payload
    // bytes, but not all of them.
    disk.bytes.extend_from_slice(&32u32.to_be_bytes());
    disk.bytes.extend_from_slice(&0u32.to_be_bytes());
    disk.bytes.extend_from_slice(&[9u8; 10]);

    let (wal, records) = disk.open().unwrap();
    assert_eq!(records.len(), 3, "the three complete records survive");
    assert_eq!(wal.end_offset(), good_end, "the log resumes at the last good record");
    assert_eq!(
        disk.bytes.len() as u64,
        good_end,
        "the torn bytes are physically gone, not just skipped"
    );
}

#[test]
fn wal_stops_at_a_corrupted_checksum() {
    let mut disk = Disk::new();
    let (mut wal, _) = disk.open().unwrap();
    disk.append(&mut wal, b"first");
    let second_offset = disk.append(&mut wal, b"second");
    disk.append(&mut wal, b"third");

    // Flip a byte inside the second record's payload. Its length still parses, so
    // only the checksum can catch this.
    let payload_start = (second_offset + RECORD_HEADER_LEN) as usize;
    disk.bytes[payload_start] ^= 0xff;

    let (_wal, records) = disk.open().unwrap();
    assert_eq!(
        payloads(&records),
        vec![b"first".to_vec()],
        "recovery stops at the corrupt record and keeps what came before"
    );
}

#[test]
fn wal_truncate_from_drops_the_suffix() {
    let mut disk = Disk::new();
    let (mut wal, _) = disk.open().unwrap();
    disk.append(&mut wal, b"keep");
    let cut = disk.append(&mut wal, b"diverged");
    disk.append(&mut wal, b"also diverged");

    disk.truncate(&mut wal, cut);
    disk.append(&mut wal, b"replacement");

    let (_wal, records) = disk.open().unwrap();
    assert_eq!(payloads(&records), vec![b"keep".to_vec(), b"replacement".to_vec()]);
}

#[test]
fn wal_refuses_a_v1_log_without_touching_it() {
    // A v1 log: bare `len | payload` framing, no header. The payload is a write of
    // `legacy`.
    let payload = bincode::serialize(&(0u32, "legacy".to_string(), vec![1u8, 2, 3])).unwrap();
    let mut bytes = (payload.len() as u32).to_be_bytes().to_vec();
    bytes.extend_from_slice(&payload);
    let mut disk = Disk { bytes: bytes.clone() };

    let err = disk.open().unwrap_err();
    assert_eq!(err.kind(), WalErrorKind::InvalidData);
    let text = err.message("wal.log").unwrap();
    assert!(text.contains("v1"), "the error should name the problem: {}", text);
    assert_eq!(disk.bytes, bytes, "the old log must be left exactly as it was");
}

#[test]
fn wal_completes_a_torn_header() {
    // Crashed between creating the file and writing the header.
    let mut disk = Disk { bytes: WAL_MAGIC[..3].to_vec() };

    let (mut wal, records) = disk.open().unwrap();
    assert!(records.is_empty());
    disk.append(&mut wal, b"after recovery");

    let (_wal, records) = disk.open().unwrap();
    assert_eq!(payloads(&records), vec![b"after recovery".to_vec()]);
}

#[test]
fn a_fresh_file_gets_the_header() {
    let mut disk = Disk::new();
    let (wal, _) = disk.open().unwrap();
    assert_eq!(disk.bytes, b"KVWALOG\x02".to_vec());
    assert_eq!(wal.end_offset(), 8);
    assert_eq!(wal.path(), "wal.log");
}

#[test]
fn another_version_is_refused_by_number() {
    let mut disk = Disk { bytes: b"KVWALOG\x03 and more".to_vec() };
    let err = disk.open().unwrap_err();
    assert_eq!(err, WalError::UnsupportedVersion { found: 3 });
    assert_eq!(
        err.message("a.log").unwrap(),
        "a.log: WAL format version 3 is not supported by this build (expected 2). \
         Every node in a cluster must run the same build."
    );
}

#[test]
fn a_foreign_file_is_refused_with_advice() {
    let err = Wal::open("x".to_string(), b"short").unwrap_err();
    assert_eq!(err, WalError::NotThisFormat);
    assert_eq!(
        err.message("x").unwrap(),
        "x: not a v2 WAL — this looks like a pre-checksum (v1) log, whose records \
         carry no term, index, or CRC and cannot be read as Raft log entries. \
         Move it aside (e.g. `mv x x.v1.bak`) and restart to begin a fresh log."
    );
}

#[test]
fn the_frame_is_length_checksum_payload() {
    let (wal, _, _) = Wal::open("w".to_string(), &[]).unwrap();
    // The CRC-32 of "123456789" is a published check value.
    match wal.frame(b"123456789").unwrap() {
        FileOp::WriteAt { offset, bytes } => {
            assert_eq!(offset, 8);
            assert_eq!(&bytes[..4], &[0, 0, 0, 9]);
            assert_eq!(&bytes[4..8], &[0xcb, 0xf4, 0x39, 0x26]);
            assert_eq!(&bytes[8..], b"123456789");
        }
        other => panic!("unexpected {:?}", other),
    }
}

#[test]
fn an_over_long_payload_is_refused() {
    let mut wal = Wal::open("w".to_string(), &[]).unwrap().0;
    let payload = vec![0u8; MAX_RECORD_LEN as usize + 1];
    let err = WalError::RecordTooLong { len: MAX_RECORD_LEN + 1 };
    assert_eq!(wal.frame(&payload).unwrap_err(), err);
    assert_eq!(wal.append(&payload, true).unwrap_err(), err);
    assert_eq!(err.kind(), WalErrorKind::InvalidInput);
    assert_eq!(
        err.message("w").unwrap(),
        "WAL record of 67108865 bytes exceeds the 67108864 byte limit"
    );
    assert_eq!(
        WalError::LengthOverflow.message("w").unwrap(),
        "WAL record exceeds u32 length prefix"
    );
}

#[test]
fn a_garbage_length_ends_the_log() {
    let mut disk = Disk::new();
    let (mut wal, _) = disk.open().unwrap();
    disk.append(&mut wal, b"ok");
    disk.bytes.extend_from_slice(&[0xff; 64]);
    let (_wal, records) = disk.open().unwrap();
    assert_eq!(payloads(&records), vec![b"ok".to_vec()]);
}

#[test]
fn a_failed_write_leaves_the_end_where_it_was() {
    let mut disk = Disk::new();
    let (mut wal, _) = disk.open().unwrap();
    assert_eq!(wal.append(b"lost", false), Err(WalError::Io));
    assert_eq!(wal.end_offset(), 8);
    assert_eq!(wal.truncate_from(0, false), Err(WalError::Io));
    assert_eq!(wal.end_offset(), 8);
    assert_eq!(WalError::Io.kind(), WalErrorKind::Io);
    assert_eq!(WalError::Io.message("w"), None);

    // Whatever reached the disk is written over by the next append.
    disk.bytes.extend_from_slice(&[1, 2, 3]);
    disk.append(&mut wal, b"next");
    let (_wal, records) = disk.open().unwrap();
    assert_eq!(payloads(&records), vec![b"next".to_vec()]);
    assert_eq!(records[0].offset, 8);
}

#[test]
fn recovering_twice_gives_the_same() {
    let mut disk = Disk::new();
    let (mut wal, _) = disk.open().unwrap();
    disk.append(&mut wal, b"one");
    disk.bytes.push(7);
    let (_, first) = disk.open().unwrap();
    let (_, records, ops) = Wal::open("wal.log".to_string(), &disk.bytes).unwrap();
    assert_eq!(first, records);
    assert!(ops.is_empty(), "a repaired file needs no more changes");
}

#[test]
fn headers_are_told_apart() {
    assert!(matches!(Wal::check_header(b""), HeaderVerdict::Fresh));
    assert!(matches!(Wal::check_header(b"KVW"), HeaderVerdict::Torn));
    assert!(matches!(Wal::check_header(b"KVX"), HeaderVerdict::Foreign));
    assert!(matches!(Wal::check_header(b"KVWALOG\x02..."), HeaderVerdict::Intact));
    assert!(matches!(
        Wal::check_header(b"KVWALOG\x09"),
        HeaderVerdict::OtherVersion { found: 9 }
    ));
    assert!(matches!(Wal::check_header(b"\0\0\0\x05hello"), HeaderVerdict::Foreign));
    assert_eq!(Wal::read_record(b"KVWALOG\x02", 8), None);
}
