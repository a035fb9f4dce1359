use crabdb::wal::{
    check_record_len, compact_log, encode_entry, read_entry, read_u32, replay_entries,
    try_read_exact, write_del, write_set, RecordField, RecordType, WalEntry, WalError,
    MAX_RECORD_LEN,
};

/// The entries of a whole log, failing the test if the reading ends in an error.
fn replay_ok(log: &[u8], what: &str) -> Vec<WalEntry> {
    let (entries, end) = replay_entries(log);
    end.expect(what);
    entries
}

fn render(entries: Vec<WalEntry>) -> Vec<(String, Option<String>)> {
    entries
        .into_iter()
        .map(|entry| match entry {
            WalEntry::Put(k, v) => (k, Some(v)),
            WalEntry::Del(k) => (k, None),
        })
        .collect()
}

#[test]
fn round_trips_set_and_del_through_replay() {
    let mut log = Vec::new();
    write_set(&mut log, "a", "1");
    write_set(&mut log, "b", "2");
    write_del(&mut log, "a");

    let applied = replay_ok(&log, "replay");
    assert_eq!(
        render(applied),
        vec![
            ("a".to_owned(), Some("1".to_owned())),
            ("b".to_owned(), Some("2".to_owned())),
            ("a".to_owned(), None),
        ]
    );
}

#[test]
fn replay_tolerates_a_truncated_trailing_record() {
    let mut log = Vec::new();
    write_set(&mut log, "foo", "bar");
    write_set(&mut log, "baz", "qux");

    // A crash in the middle of the last append leaves it short.
    let len = log.len();
    log.truncate(len - 3);

    let applied = replay_ok(&log, "replay must not error");

    assert_eq!(applied.len(), 1);
    assert!(matches!(&applied[0], WalEntry::Put(k, v) if k == "foo" && v == "bar"));
}

#[test]
fn replay_rejects_a_corrupted_record() {
    let mut bytes = Vec::new();
    write_set(&mut bytes, "foo", "bar");

    let value_pos = bytes
        .windows(3)
        .position(|w| w == b"bar")
        .expect("find value bytes in record");
    bytes[value_pos] ^= 0xFF;

    // Every refusal of a complete record is invalid data; flipping all bits of
    // an ASCII byte also leaves the value outside UTF-8, which is found first.
    let (_, result) = replay_entries(&bytes);
    let err = result.err().expect("corrupted record must be rejected");
    assert!(matches!(err, WalError::InvalidUtf8 | WalError::ChecksumMismatch { .. }));
}

#[test]
fn replay_rejects_an_oversized_length_prefix() {
    let mut bytes = Vec::new();
    bytes.push(1u8);
    bytes.extend_from_slice(&(u32::MAX).to_le_bytes());

    let result = read_entry(&bytes);
    assert_eq!(
        result.err(),
        Some(WalError::RecordTooLong { field: RecordField::Key, len: u32::MAX })
    );
}

#[test]
fn compact_rewrites_log_to_only_current_entries() {
    let log = compact_log(&vec![("b".to_owned(), "2".to_owned())]);

    let applied = replay_ok(&log, "replay");
    assert_eq!(applied.len(), 1);
    assert!(matches!(&applied[0], WalEntry::Put(k, v) if k == "b" && v == "2"));
}

#[test]
fn record_layout_is_type_lengths_bytes_and_checksum() {
    let mut log = Vec::new();
    write_del(&mut log, "a");
    // type 2, key length 1, key, then CRC-32 of those six bytes, little-endian.
    let crc: u32 = 0xfbdf78d6;
    let mut expected = vec![2u8, 1, 0, 0, 0, b'a'];
    expected.extend_from_slice(&crc.to_le_bytes());
    assert_eq!(log, expected);

    let mut log = Vec::new();
    write_set(&mut log, "k", "vv");
    assert_eq!(&log[..11], &[1u8, 1, 0, 0, 0, b'k', 2, 0, 0, 0, b'v'][..]);
    assert_eq!(log.len(), 1 + 4 + 1 + 4 + 2 + 4);
}

#[test]
fn checksum_is_crc32_ieee() {
    // The stored checksum is the CRC-32 (IEEE) of the record body.
    let mut log = Vec::new();
    write_del(&mut log, "123456789");
    let stored = u32::from_le_bytes([log[14], log[15], log[16], log[17]]);
    assert_eq!(stored, crc32fast::hash(&log[..14]));
    assert_ne!(stored, 0);
    assert_eq!(crc32fast::hash(b"123456789"), 0xcbf43926);
}

#[test]
fn read_entry_reports_length_consumed() {
    let mut log = Vec::new();
    write_set(&mut log, "key", "value");
    let first_len = log.len();
    write_del(&mut log, "key");
    match read_entry(&log) {
        Ok(Some((WalEntry::Put(k, v), n))) => {
            assert_eq!(k, "key");
            assert_eq!(v, "value");
            assert_eq!(n, first_len);
        }
        other => panic!("unexpected {:?}", other),
    }
    match read_entry(&log[first_len..]) {
        Ok(Some((WalEntry::Del(k), n))) => {
            assert_eq!(k, "key");
            assert_eq!(n, log.len() - first_len);
        }
        other => panic!("unexpected {:?}", other),
    }
}

#[test]
fn every_proper_prefix_of_a_record_reads_as_nothing() {
    let mut log = Vec::new();
    write_set(&mut log, "ключ", "värde");
    for len in 0..log.len() {
        assert!(matches!(read_entry(&log[..len]), Ok(None)), "prefix of {} bytes", len);
    }
}

#[test]
fn unknown_record_type_is_refused() {
    assert_eq!(read_entry(&[3u8]).err(), Some(WalError::UnknownRecordType(3)));
    assert_eq!(read_entry(&[0u8, 0, 0]).err(), Some(WalError::UnknownRecordType(0)));
}

#[test]
fn oversized_value_length_is_refused() {
    let mut bytes = vec![1u8, 1, 0, 0, 0, b'k'];
    bytes.extend_from_slice(&(MAX_RECORD_LEN + 1).to_le_bytes());
    assert_eq!(
        read_entry(&bytes).err(),
        Some(WalError::RecordTooLong { field: RecordField::Value, len: MAX_RECORD_LEN + 1 })
    );
}

#[test]
fn invalid_utf8_is_refused() {
    let mut bytes = vec![2u8, 1, 0, 0, 0, 0xff];
    let crc = crc32fast::hash(&bytes);
    bytes.extend_from_slice(&crc.to_le_bytes());
    assert_eq!(read_entry(&bytes).err(), Some(WalError::InvalidUtf8));
}

#[test]
fn checksum_mismatch_reports_both_values() {
    let mut bytes = vec![2u8, 1, 0, 0, 0, b'a'];
    let crc = crc32fast::hash(&bytes);
    bytes.extend_from_slice(&(crc ^ 1).to_le_bytes());
    assert_eq!(
        read_entry(&bytes).err(),
        Some(WalError::ChecksumMismatch { expected: crc, found: crc ^ 1 })
    );
}

#[test]
fn empty_log_replays_to_nothing() {
    assert!(replay_ok(&[], "replay").is_empty());
}

#[test]
fn encode_entry_matches_the_writers() {
    let mut a = Vec::new();
    write_set(&mut a, "x", "y");
    assert_eq!(encode_entry(&WalEntry::Put("x".to_owned(), "y".to_owned())), a);
    let mut b = Vec::new();
    write_del(&mut b, "x");
    assert_eq!(encode_entry(&WalEntry::Del("x".to_owned())), b);
}

#[test]
fn helpers_read_what_is_there() {
    let bytes = [7u8, 1, 2, 3, 4];
    assert_eq!(try_read_exact(&bytes, 1, 2), Some(&[1u8, 2][..]));
    assert_eq!(try_read_exact(&bytes, 4, 2), None);
    assert_eq!(read_u32(&bytes, 1), Some(0x04030201));
    assert_eq!(read_u32(&bytes, 2), None);
    assert_eq!(check_record_len(MAX_RECORD_LEN, RecordField::Key), Ok(()));
    assert!(check_record_len(MAX_RECORD_LEN + 1, RecordField::Key).is_err());
    assert!(matches!(RecordType::try_from(1), Ok(RecordType::Put)));
    assert!(matches!(RecordType::try_from(2), Ok(RecordType::Del)));
    assert_eq!(RecordType::try_from(9).err(), Some(WalError::UnknownRecordType(9)));
}

#[test]
fn verify_checksum_compares() {
    assert_eq!(crabdb::wal::verify_checksum(5, 5), Ok(()));
    assert_eq!(
        crabdb::wal::verify_checksum(5, 6),
        Err(WalError::ChecksumMismatch { expected: 6, found: 5 })
    );
}

#[test]
fn replay_keeps_the_entries_before_a_refused_record() {
    let mut log = Vec::new();
    write_set(&mut log, "a", "1");
    write_del(&mut log, "b");
    let good = log.len();
    write_set(&mut log, "c", "3");
    let last = log.len() - 1;
    log[last] ^= 0x01;
    write_set(&mut log, "d", "4");

    let (entries, end) = replay_entries(&log);
    assert_eq!(
        render(entries),
        vec![("a".to_owned(), Some("1".to_owned())), ("b".to_owned(), None)]
    );
    assert!(matches!(end, Err(WalError::ChecksumMismatch { .. })));

    let mut unknown = log[..good].to_vec();
    unknown.push(7);
    let (entries, end) = replay_entries(&unknown);
    assert_eq!(entries.len(), 2);
    assert_eq!(end, Err(WalError::UnknownRecordType(7)));
}

#[test]
fn wal_error_messages() {
    assert_eq!(WalError::UnknownRecordType(0).message(), "unknown record type: 0");
    assert_eq!(WalError::UnknownRecordType(3).message(), "unknown record type: 3");
    assert_eq!(WalError::UnknownRecordType(255).message(), "unknown record type: 255");
    assert_eq!(
        WalError::RecordTooLong { field: RecordField::Key, len: u32::MAX }.message(),
        "WAL record key length 4294967295 exceeds maximum of 67108864 bytes; \
         the log file may be corrupted"
    );
    assert_eq!(
        WalError::RecordTooLong { field: RecordField::Value, len: 67108865 }.message(),
        "WAL record value length 67108865 exceeds maximum of 67108864 bytes; \
         the log file may be corrupted"
    );
    assert_eq!(WalError::InvalidUtf8.message(), "invalid UTF-8");
    assert_eq!(
        WalError::ChecksumMismatch { expected: 0xcbf43926, found: 0x1a }.message(),
        "WAL checksum mismatch (expected 0xcbf43926, found 0x0000001a); \
         the log file may be corrupted"
    );
    for (e, f) in [(0u32, 0u32), (0xffffffff, 0x10), (0x00abcdef, 0x7)] {
        assert_eq!(
            WalError::ChecksumMismatch { expected: e, found: f }.message(),
            format!(
                "WAL checksum mismatch (expected {e:#010x}, found {f:#010x}); \
                 the log file may be corrupted"
            )
        );
    }
}
