use wal_kv::wal_iterator::LogFileIterator;

fn insertion(key: &[u8], value: &[u8], timestamp: u128) -> Vec<u8> {
    let mut frame = Vec::new();
    frame.extend_from_slice(&(key.len() as u64).to_le_bytes());
    frame.push(0);
    frame.extend_from_slice(&(value.len() as u64).to_le_bytes());
    frame.extend_from_slice(key);
    frame.extend_from_slice(value);
    frame.extend_from_slice(&timestamp.to_le_bytes());
    frame
}

fn deletion(key: &[u8], timestamp: u128, flag: u8) -> Vec<u8> {
    let mut frame = Vec::new();
    frame.extend_from_slice(&(key.len() as u64).to_le_bytes());
    frame.push(flag);
    frame.extend_from_slice(key);
    frame.extend_from_slice(&timestamp.to_le_bytes());
    frame
}

#[test]
fn empty_file_has_no_records() {
    let mut frames = LogFileIterator::new(Vec::new());
    assert!(frames.next().is_none());
    assert!(frames.next().is_none());
}

#[test]
fn reads_an_insertion() {
    let mut frames = LogFileIterator::new(insertion(b"k", b"a", 1));
    let record = frames.next().unwrap();
    assert_eq!(record.identifier, b"k");
    assert_eq!(record.data.as_deref(), Some(&b"a"[..]));
    assert_eq!(record.event_time, 1);
    assert!(!record.is_removed);
    assert!(frames.next().is_none());
}

#[test]
fn reads_a_deletion() {
    let mut frames = LogFileIterator::new(deletion(b"gone", 77, 1));
    let record = frames.next().unwrap();
    assert_eq!(record.identifier, b"gone");
    assert_eq!(record.data, None);
    assert_eq!(record.event_time, 77);
    assert!(record.is_removed);
    assert!(frames.next().is_none());
}

#[test]
fn any_nonzero_flag_is_a_deletion() {
    let mut frames = LogFileIterator::new(deletion(b"gone", 3, 0x80));
    let record = frames.next().unwrap();
    assert!(record.is_removed);
    assert_eq!(record.data, None);
    assert_eq!(record.identifier, b"gone");
    assert_eq!(record.event_time, 3);
}

#[test]
fn short_read_at_every_place_ends_the_walk() {
    let whole = insertion(b"key", b"value", 9);
    for cut in 0..whole.len() {
        let mut frames = LogFileIterator::new(whole[..cut].to_vec());
        assert!(frames.next().is_none(), "cut at {}", cut);
        assert!(frames.next().is_none(), "cut at {}", cut);
    }
    let whole = deletion(b"key", 9, 1);
    for cut in 0..whole.len() {
        let mut frames = LogFileIterator::new(whole[..cut].to_vec());
        assert!(frames.next().is_none(), "cut at {}", cut);
    }
}

#[test]
fn torn_tail_keeps_the_frames_before_it() {
    let mut bytes = insertion(b"a", b"1", 1);
    bytes.extend_from_slice(&deletion(b"b", 2, 1));
    let torn = insertion(b"c", b"3", 3);
    bytes.extend_from_slice(&torn[..20]);
    let mut frames = LogFileIterator::new(bytes);
    assert_eq!(frames.next().unwrap().identifier, b"a");
    assert_eq!(frames.next().unwrap().identifier, b"b");
    assert!(frames.next().is_none());
    assert!(frames.next().is_none());
}

#[test]
fn a_length_beyond_the_file_ends_the_walk() {
    let mut bytes = Vec::new();
    bytes.extend_from_slice(&u64::MAX.to_le_bytes());
    bytes.push(0);
    bytes.extend_from_slice(&u64::MAX.to_le_bytes());
    bytes.extend_from_slice(&[0u8; 64]);
    let mut frames = LogFileIterator::new(bytes);
    assert!(frames.next().is_none());
    assert!(frames.next().is_none());

    let mut bytes = Vec::new();
    bytes.extend_from_slice(&1000u64.to_le_bytes());
    bytes.push(1);
    bytes.extend_from_slice(&[0u8; 64]);
    let mut frames = LogFileIterator::new(bytes);
    assert!(frames.next().is_none());
}

#[test]
fn corrupt_middle_hides_what_follows() {
    let mut bytes = insertion(b"a", b"1", 1);
    let mut broken = insertion(b"b", b"2", 2);
    broken[0] = 0xff;
    broken[7] = 0xff;
    bytes.extend_from_slice(&broken);
    bytes.extend_from_slice(&insertion(b"c", b"3", 3));
    let mut frames = LogFileIterator::new(bytes);
    assert_eq!(frames.next().unwrap().identifier, b"a");
    assert!(frames.next().is_none());
    assert!(frames.next().is_none());
}
