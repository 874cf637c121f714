use wal_kv::log_file::LogFile;
use wal_kv::wal::WAL;
use wal_kv::wal_iterator::LogFileIterator;

fn read_u64(bytes: &[u8], at: &mut usize) -> u64 {
    let mut field = [0u8; 8];
    field.copy_from_slice(&bytes[*at..*at + 8]);
    *at += 8;
    u64::from_le_bytes(field)
}

fn read_u128(bytes: &[u8], at: &mut usize) -> u128 {
    let mut field = [0u8; 16];
    field.copy_from_slice(&bytes[*at..*at + 16]);
    *at += 16;
    u128::from_le_bytes(field)
}

fn validate_log_entry(
    bytes: &[u8],
    at: &mut usize,
    expected_key: &[u8],
    expected_value: Option<&[u8]>,
    expected_timestamp: u128,
    is_deleted: bool,
) {
    let key_size = read_u64(bytes, at) as usize;
    assert_eq!(key_size, expected_key.len(), "Key size mismatch");

    let deletion_flag = bytes[*at] != 0;
    *at += 1;
    assert_eq!(deletion_flag, is_deleted, "Deletion flag mismatch");

    if deletion_flag {
        assert_eq!(&bytes[*at..*at + key_size], expected_key, "Deleted key mismatch");
        *at += key_size;
        let timestamp = read_u128(bytes, at);
        assert_eq!(timestamp, expected_timestamp, "Timestamp mismatch");
    } else {
        let value_size = read_u64(bytes, at) as usize;
        assert_eq!(value_size, expected_value.unwrap().len(), "Value size mismatch");

        assert_eq!(&bytes[*at..*at + key_size], expected_key, "Key mismatch for insertion");
        *at += key_size;

        assert_eq!(
            &bytes[*at..*at + value_size],
            expected_value.unwrap(),
            "Value mismatch for insertion"
        );
        *at += value_size;

        let timestamp = read_u128(bytes, at);
        assert_eq!(timestamp, expected_timestamp, "Timestamp mismatch");
    }
}

const NOW: u128 = 1_700_000_000_123_456;

#[test]
fn test_single_write() {
    let current_time = NOW;

    let mut wal = WAL::create_new(current_time);
    wal.record_insertion(b"Server", b"nginx", current_time);
    let written = wal.flush();

    let mut at = 0;
    validate_log_entry(&written, &mut at, b"Server", Some(b"nginx"), current_time, false);
    assert_eq!(at, written.len());
}

#[test]
fn test_multiple_writes() {
    let current_time = NOW;

    let entries: Vec<(&[u8], Option<&[u8]>)> = vec![
        (b"Server", Some(b"nginx")),
        (b"Database", Some(b"PostgreSQL")),
        (b"API", Some(b"GraphQL")),
    ];

    let mut wal = WAL::create_new(current_time);

    for (key, value) in entries.iter() {
        wal.record_insertion(key, value.unwrap(), current_time);
    }
    let written = wal.flush();

    let mut at = 0;
    for (key, value) in entries.iter() {
        validate_log_entry(&written, &mut at, key, Some(value.unwrap()), current_time, false);
    }
    assert_eq!(at, written.len());
}

#[test]
fn test_deletion() {
    let current_time = NOW;

    let mut wal = WAL::create_new(current_time);
    wal.record_removal(b"Server", current_time);
    let written = wal.flush();

    let mut at = 0;
    validate_log_entry(&written, &mut at, b"Server", None, current_time, true);
    assert_eq!(at, written.len());
}

#[test]
fn test_recover_empty_directory() {
    let (_new_wal, new_mem_table) = WAL::recover_from_directory(Vec::new(), NOW);
    assert_eq!(
        new_mem_table.current_size(),
        0,
        "Memory table should be empty"
    );
}

#[test]
fn test_recover_single_write() {
    let current_time = NOW;

    let mut wal = WAL::create_new(current_time);
    wal.record_insertion(b"Server", b"nginx", current_time);
    let old_log = LogFile { name: wal.file_name().to_string(), contents: Some(wal.flush()) };

    let (mut new_wal, new_mem_table) =
        WAL::recover_from_directory(vec![old_log], current_time + 1);
    let written = new_wal.flush();

    let mut at = 0;
    validate_log_entry(&written, &mut at, b"Server", Some(b"nginx"), current_time, false);
    assert_eq!(at, written.len());

    let mem_entry = new_mem_table.fetch(b"Server").unwrap();
    assert_eq!(mem_entry.key, b"Server");
    assert_eq!(mem_entry.value.as_ref().unwrap().as_slice(), b"nginx");
    assert_eq!(mem_entry.timestamp, current_time);
}

#[test]
fn insertion_frame_is_laid_out_byte_for_byte() {
    let mut wal = WAL::create_new(1);
    wal.record_insertion(b"ab", b"xyz", 0x0102);
    let frame = wal.flush();
    let mut expected = vec![2u8, 0, 0, 0, 0, 0, 0, 0];
    expected.push(0);
    expected.extend_from_slice(&[3, 0, 0, 0, 0, 0, 0, 0]);
    expected.extend_from_slice(b"ab");
    expected.extend_from_slice(b"xyz");
    expected.extend_from_slice(&[0x02, 0x01, 0, 0, 0, 0, 0, 0, 0, 0, 0, 0, 0, 0, 0, 0]);
    assert_eq!(frame, expected);
    assert_eq!(frame.len(), 33 + 2 + 3);
}

#[test]
fn deletion_frame_is_laid_out_byte_for_byte() {
    let mut wal = WAL::create_new(1);
    wal.record_removal(b"ab", u128::MAX);
    let frame = wal.flush();
    let mut expected = vec![2u8, 0, 0, 0, 0, 0, 0, 0];
    expected.push(1);
    expected.extend_from_slice(b"ab");
    expected.extend_from_slice(&[0xff; 16]);
    assert_eq!(frame, expected);
    assert_eq!(frame.len(), 25 + 2);
}

#[test]
fn empty_key_and_value_still_make_a_frame() {
    let mut wal = WAL::create_new(1);
    wal.record_insertion(b"", b"", 0);
    assert_eq!(wal.flush(), vec![0u8; 33]);
}

#[test]
fn flush_hands_out_the_buffer_once() {
    let mut wal = WAL::create_new(1);
    wal.record_removal(b"k", 5);
    assert_eq!(wal.flush().len(), 26);
    assert!(wal.flush().is_empty());
    wal.record_removal(b"k", 6);
    assert_eq!(wal.flush().len(), 26);
}

#[test]
fn wal_is_named_after_its_creation_time() {
    assert_eq!(WAL::create_new(0).file_name(), "0.wal");
    assert_eq!(WAL::create_new(NOW).file_name(), "1700000000123456.wal");
    assert_eq!(WAL::open_existing("17.wal".to_string()).file_name(), "17.wal");
}

#[test]
fn frames_round_trip_through_the_iterator() {
    let mut wal = WAL::create_new(1);
    wal.record_insertion(b"Server", b"nginx", 11);
    wal.record_removal(b"Server", 12);
    wal.record_insertion(b"", b"", 13);
    wal.record_insertion(b"k", &[0u8, 1, 2, 255], u128::MAX);
    let mut frames = LogFileIterator::new(wal.flush());

    let first = frames.next().unwrap();
    assert_eq!(first.identifier, b"Server");
    assert_eq!(first.data.as_deref(), Some(&b"nginx"[..]));
    assert_eq!(first.event_time, 11);
    assert!(!first.is_removed);

    let second = frames.next().unwrap();
    assert_eq!(second.identifier, b"Server");
    assert_eq!(second.data, None);
    assert_eq!(second.event_time, 12);
    assert!(second.is_removed);

    let third = frames.next().unwrap();
    assert!(third.identifier.is_empty());
    assert_eq!(third.data.as_deref(), Some(&b""[..]));
    assert_eq!(third.event_time, 13);

    let fourth = frames.next().unwrap();
    assert_eq!(fourth.data.as_deref(), Some(&[0u8, 1, 2, 255][..]));
    assert_eq!(fourth.event_time, u128::MAX);

    assert!(frames.next().is_none());
    assert!(frames.next().is_none());
}

#[test]
fn replay_log_applies_and_records_again() {
    let mut old = WAL::create_new(1);
    old.record_insertion(b"b", b"1", 10);
    old.record_insertion(b"a", b"22", 11);
    old.record_removal(b"b", 12);
    let bytes = old.flush();

    let mut table = wal_kv::mem_table::InMemoryTable::new();
    let mut active = WAL::create_new(2);
    active.replay_log(&mut table, bytes.clone());

    assert_eq!(active.flush(), bytes);
    assert_eq!(table.record_count(), 2);
    assert_eq!(table.fetch(b"a").unwrap().value.as_deref(), Some(&b"22"[..]));
    assert!(table.fetch(b"b").unwrap().is_deleted);
    assert_eq!(table.fetch(b"b").unwrap().timestamp, 12);
    assert_eq!(table.current_size(), (1 + 2 + 17) + (1 + 17));
}

#[test]
fn torn_tail_ends_the_replay_of_that_log() {
    let mut old = WAL::create_new(1);
    old.record_insertion(b"kept", b"v", 1);
    let whole = old.flush();
    old.record_insertion(b"lost", b"v", 2);
    let mut torn = whole.clone();
    let second = old.flush();
    torn.extend_from_slice(&second[..second.len() - 1]);

    let mut table = wal_kv::mem_table::InMemoryTable::new();
    let mut active = WAL::create_new(2);
    active.replay_log(&mut table, torn);

    assert_eq!(table.record_count(), 1);
    assert!(table.fetch(b"kept").is_some());
    assert!(table.fetch(b"lost").is_none());
    assert_eq!(active.flush(), whole);
}
