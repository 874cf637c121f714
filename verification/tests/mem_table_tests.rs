use wal_kv::mem_table::{InMemoryRecord, InMemoryTable};

#[test]
fn test_insert_at_start() {
    let mut table = InMemoryTable::new();
    table.insert(b"API", b"REST API Documentation", 5);
    table.insert(b"SDK", b"Software Development Kit Guide", 10);
    table.insert(b"CLI", b"Command Line Interface Manual", 15);

    let records = table.all_records();
    assert_eq!(records[0].key, b"API");
    assert_eq!(
        records[0].value.as_ref().unwrap(),
        b"REST API Documentation"
    );
    assert_eq!(records[0].timestamp, 5);
    assert!(!records[0].is_deleted);
    assert_eq!(table.current_size(), 141);
}

#[test]
fn test_insert_in_middle() {
    let mut table = InMemoryTable::new();
    table.insert(b"API", b"REST API Documentation", 5);
    table.insert(b"CLI", b"Command Line Interface Manual", 15);
    table.insert(b"SDK", b"Software Development Kit Guide", 10);

    let records = table.all_records();
    assert_eq!(records[0].key, b"API");
    assert_eq!(records[1].key, b"CLI");
    assert_eq!(records[2].key, b"SDK");

    assert_eq!(table.current_size(), 141);
}

#[test]
fn test_insert_at_end() {
    let mut table = InMemoryTable::new();
    table.insert(b"API", b"REST API Documentation", 5);
    table.insert(b"CLI", b"Command Line Interface Manual", 15);
    table.insert(b"SDK", b"Software Development Kit Guide", 10);

    assert_eq!(table.all_records()[2].key, b"SDK");
    assert_eq!(table.current_size(), 141);
}

#[test]
fn test_overwrite_existing_entry() {
    let mut table = InMemoryTable::new();
    table.insert(b"API", b"REST API Documentation", 5);
    table.insert(b"API", b"Updated REST API Documentation", 10);

    let api_entry = table.fetch(b"API").unwrap();
    assert_eq!(api_entry.key, b"API");
    assert_eq!(
        api_entry.value.as_ref().unwrap(),
        b"Updated REST API Documentation"
    );
    assert_eq!(api_entry.timestamp, 10);
    assert!(!api_entry.is_deleted);
    assert_eq!(table.current_size(), 50);
}

#[test]
fn test_fetch_existing_entry() {
    let mut table = InMemoryTable::new();
    table.insert(b"API", b"REST API Documentation", 5);

    let entry = table.fetch(b"API").unwrap();
    assert_eq!(entry.key, b"API");
    assert_eq!(entry.value.as_ref().unwrap(), b"REST API Documentation");
    assert_eq!(entry.timestamp, 5);
    assert!(!entry.is_deleted);
}

#[test]
fn test_fetch_nonexistent_entry() {
    let mut table = InMemoryTable::new();
    table.insert(b"API", b"REST API Documentation", 5);

    let result = table.fetch(b"SDK");
    assert!(result.is_none());
}

#[test]
fn test_remove_existing_entry() {
    let mut table = InMemoryTable::new();
    table.insert(b"API", b"REST API Documentation", 5);
    table.remove(b"API", 10);

    let entry = table.fetch(b"API").unwrap();
    assert_eq!(entry.key, b"API");
    assert_eq!(entry.value, None);
    assert_eq!(entry.timestamp, 10);
    assert!(entry.is_deleted);
    assert_eq!(table.current_size(), 20);
}

#[test]
fn test_remove_nonexistent_entry() {
    let mut table = InMemoryTable::new();
    table.insert(b"API", b"REST API Documentation", 5);
    table.remove(b"SDK", 10);

    let entry = table.fetch(b"SDK").unwrap();
    assert_eq!(entry.key, b"SDK");
    assert_eq!(entry.value, None);
    assert_eq!(entry.timestamp, 10);
    assert!(entry.is_deleted);
    assert_eq!(table.current_size(), 62);
}

fn footprint_of(records: &[InMemoryRecord]) -> usize {
    let mut total = 0;
    for record in records {
        total += record.key.len() + record.value.as_ref().map_or(0, |v| v.len()) + 17;
    }
    total
}

fn check_invariants(table: &InMemoryTable) {
    let records = table.all_records();
    assert_eq!(records.len(), table.record_count());
    for pair in records.windows(2) {
        assert!(pair[0].key < pair[1].key);
    }
    for record in records {
        assert_eq!(record.is_deleted, record.value.is_none());
    }
    assert_eq!(table.current_size(), footprint_of(records));
}

#[test]
fn new_table_is_empty() {
    let table = InMemoryTable::new();
    assert_eq!(table.record_count(), 0);
    assert_eq!(table.current_size(), 0);
    assert!(table.all_records().is_empty());
    assert!(table.fetch(b"anything").is_none());
    assert_eq!(table.find_key_position(b"anything"), Err(0));
}

#[test]
fn invariants_hold_through_a_mixed_run() {
    let mut table = InMemoryTable::new();
    let keys: [&[u8]; 7] = [b"m", b"a", b"zz", b"", b"m", b"ab", b"a"];
    for (step, key) in keys.iter().enumerate() {
        if step % 3 == 2 {
            table.remove(key, step as u128);
        } else {
            table.insert(key, &vec![7u8; step * 3], step as u128);
        }
        check_invariants(&table);
    }
    assert_eq!(table.record_count(), 5);
    let order: Vec<&[u8]> = table.all_records().iter().map(|r| r.key.as_slice()).collect();
    assert_eq!(order, vec![&b""[..], &b"a"[..], &b"ab"[..], &b"m"[..], &b"zz"[..]]);
}

#[test]
fn keys_stay_unique() {
    let mut table = InMemoryTable::new();
    table.insert(b"k", b"one", 1);
    table.insert(b"k", b"two", 2);
    table.remove(b"k", 3);
    table.insert(b"k", b"three", 4);
    assert_eq!(table.record_count(), 1);
    assert_eq!(table.fetch(b"k").unwrap().value.as_deref(), Some(&b"three"[..]));
    assert_eq!(table.current_size(), 1 + 5 + 17);
}

#[test]
fn empty_value_is_charged_key_and_overhead() {
    let mut table = InMemoryTable::new();
    table.insert(b"key", b"", 1);
    assert_eq!(table.current_size(), 3 + 17);
    let record = table.fetch(b"key").unwrap();
    assert_eq!(record.value.as_deref(), Some(&b""[..]));
    assert!(!record.is_deleted);
}

#[test]
fn empty_key_is_a_key() {
    let mut table = InMemoryTable::new();
    table.insert(b"", b"v", 9);
    assert_eq!(table.current_size(), 1 + 17);
    assert_eq!(table.fetch(b"").unwrap().timestamp, 9);
    assert_eq!(table.find_key_position(b""), Ok(0));
}

#[test]
fn shorter_value_over_longer_subtracts_the_difference() {
    let mut table = InMemoryTable::new();
    table.insert(b"k", b"0123456789", 1);
    assert_eq!(table.current_size(), 1 + 10 + 17);
    table.insert(b"k", b"012", 2);
    assert_eq!(table.current_size(), 1 + 3 + 17);
}

#[test]
fn live_over_tombstone_adds_the_value() {
    let mut table = InMemoryTable::new();
    table.remove(b"k", 1);
    assert_eq!(table.current_size(), 1 + 17);
    table.insert(b"k", b"value", 2);
    assert_eq!(table.current_size(), 1 + 5 + 17);
    assert!(!table.fetch(b"k").unwrap().is_deleted);
}

#[test]
fn removing_twice_changes_only_the_timestamp() {
    let mut table = InMemoryTable::new();
    table.remove(b"gone", 1);
    table.remove(b"gone", 2);
    assert_eq!(table.record_count(), 1);
    assert_eq!(table.current_size(), 4 + 17);
    assert_eq!(table.fetch(b"gone").unwrap().timestamp, 2);
}

#[test]
fn older_timestamp_still_replaces() {
    let mut table = InMemoryTable::new();
    table.insert(b"k", b"new", 100);
    table.insert(b"k", b"old", 1);
    let record = table.fetch(b"k").unwrap();
    assert_eq!(record.value.as_deref(), Some(&b"old"[..]));
    assert_eq!(record.timestamp, 1);
}

#[test]
fn find_key_position_reports_index_or_insertion_point() {
    let mut table = InMemoryTable::new();
    table.insert(b"b", b"1", 1);
    table.insert(b"d", b"2", 2);
    table.insert(b"f", b"3", 3);
    assert_eq!(table.find_key_position(b"a"), Err(0));
    assert_eq!(table.find_key_position(b"b"), Ok(0));
    assert_eq!(table.find_key_position(b"c"), Err(1));
    assert_eq!(table.find_key_position(b"d"), Ok(1));
    assert_eq!(table.find_key_position(b"e"), Err(2));
    assert_eq!(table.find_key_position(b"f"), Ok(2));
    assert_eq!(table.find_key_position(b"g"), Err(3));
}

#[test]
fn keys_compare_as_raw_bytes() {
    let mut table = InMemoryTable::new();
    table.insert(&[0xff], b"high", 1);
    table.insert(&[0x7f, 0x00], b"mid", 2);
    table.insert(&[0x7f], b"prefix", 3);
    table.insert(&[0x00, 0xff], b"low", 4);
    let order: Vec<Vec<u8>> = table.all_records().iter().map(|r| r.key.clone()).collect();
    assert_eq!(order, vec![vec![0x00, 0xff], vec![0x7f], vec![0x7f, 0x00], vec![0xff]]);
}

#[test]
fn has_room_for_ordinary_writes() {
    let mut table = InMemoryTable::new();
    assert!(table.has_room(b"k", Some(b"value")));
    assert!(table.has_room(b"k", None));
    table.insert(b"k", b"value", 1);
    assert!(table.has_room(b"k", Some(b"another value")));
    assert!(table.has_room(b"other", None));
}
