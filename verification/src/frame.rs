//! The binary layout of the write-ahead log: length-prefixed frames, all integers
//! little-endian, with no header, footer or separator between frames.
//!
//! An insertion is `u64 key_len | u8 0 | u64 value_len | key | value | u128 timestamp`,
//! a deletion is `u64 key_len | u8 1 | key | u128 timestamp`.

use crate::wal_iterator::LogRecordView;
use vstd::bytes::{
    lemma_auto_spec_u128_to_from_le_bytes, lemma_auto_spec_u64_to_from_le_bytes,
    spec_u128_from_le_bytes, spec_u128_to_le_bytes, spec_u64_from_le_bytes, spec_u64_to_le_bytes,
};
use vstd::prelude::*;

verus! {

/// The frame of a write of `value` under `key`.
pub open spec fn insertion_frame(key: Seq<u8>, value: Seq<u8>, timestamp: u128) -> Seq<u8> {
    spec_u64_to_le_bytes(key.len() as u64) + seq![0u8] + spec_u64_to_le_bytes(value.len() as u64)
        + key + value + spec_u128_to_le_bytes(timestamp)
}

/// The frame of a deletion of `key`.
pub open spec fn removal_frame(key: Seq<u8>, timestamp: u128) -> Seq<u8> {
    spec_u64_to_le_bytes(key.len() as u64) + seq![1u8] + key + spec_u128_to_le_bytes(timestamp)
}

/// The frame that records `record`.
pub open spec fn frame_of(record: LogRecordView) -> Seq<u8> {
    match record.data {
        Some(value) => insertion_frame(record.identifier, value, record.event_time),
        None => removal_frame(record.identifier, record.event_time),
    }
}

/// A record that a frame can hold: the flag is set exactly when the value is
/// absent, and both lengths fit their 8-byte fields.
pub open spec fn encodable(record: LogRecordView) -> bool {
    &&& record.is_removed <==> record.data is None
    &&& record.identifier.len() <= u64::MAX
    &&& record.data matches Some(value) ==> value.len() <= u64::MAX
}

/// The frames of `records`, one after the other.
pub open spec fn encode_log(records: Seq<LogRecordView>) -> Seq<u8>
    decreases records.len(),
{
    if records.len() == 0 {
        Seq::empty()
    } else {
        frame_of(records.first()) + encode_log(records.drop_first())
    }
}

/// The frame at the head of `bytes`: its record and its length, or `None` where
/// `bytes` ends before the frame does.
pub open spec fn parse_frame(bytes: Seq<u8>) -> Option<(LogRecordView, int)> {
    if bytes.len() < 9 {
        None
    } else {
        let key_len = spec_u64_from_le_bytes(bytes.subrange(0, 8)) as int;
        if bytes[8] != 0 {
            if bytes.len() < 25 + key_len {
                None
            } else {
                Some(
                    (
                        LogRecordView {
                            identifier: bytes.subrange(9, 9 + key_len),
                            data: None,
                            event_time: spec_u128_from_le_bytes(
                                bytes.subrange(9 + key_len, 25 + key_len),
                            ),
                            is_removed: true,
                        },
                        25 + key_len,
                    ),
                )
            }
        } else if bytes.len() < 17 {
            None
        } else {
            let value_len = spec_u64_from_le_bytes(bytes.subrange(9, 17)) as int;
            if bytes.len() < 33 + key_len + value_len {
                None
            } else {
                Some(
                    (
                        LogRecordView {
                            identifier: bytes.subrange(17, 17 + key_len),
                            data: Some(
                                bytes.subrange(17 + key_len, 17 + key_len + value_len),
                            ),
                            event_time: spec_u128_from_le_bytes(
                                bytes.subrange(
                                    17 + key_len + value_len,
                                    33 + key_len + value_len,
                                ),
                            ),
                            is_removed: false,
                        },
                        33 + key_len + value_len,
                    ),
                )
            }
        }
    }
}

/// The records of a log, front to back, up to the first place where a frame is
/// cut short or the bytes end.
pub open spec fn parse_log(bytes: Seq<u8>) -> Seq<LogRecordView>
    decreases bytes.len(),
{
    match parse_frame(bytes) {
        Some((record, length)) => seq![record] + parse_log(bytes.skip(length)),
        None => Seq::empty(),
    }
}

/// The length of a frame: 25 bytes and the key for a deletion, 33 bytes, the key
/// and the value for an insertion.
pub proof fn lemma_frame_length(record: LogRecordView)
    ensures
        frame_of(record).len() == match record.data {
            Some(value) => 33 + record.identifier.len() + value.len(),
            None => 25 + record.identifier.len(),
        },
{
    lemma_auto_spec_u64_to_from_le_bytes();
    lemma_auto_spec_u128_to_from_le_bytes();
}

/// Every frame that parses holds a record that a frame can hold, and is at
/// least 25 bytes long and no longer than the bytes it was read from.
pub proof fn lemma_parse_frame_bounds(bytes: Seq<u8>)
    ensures
        parse_frame(bytes) matches Some((record, length)) ==> {
            &&& encodable(record)
            &&& 25 <= length <= bytes.len()
            &&& length == frame_of(record).len()
        },
{
    if let Some((record, length)) = parse_frame(bytes) {
        lemma_frame_length(record);
    }
}

/// Frame round trip: a frame followed by anything parses back to the record it
/// was made from, and to its own length.
pub proof fn lemma_frame_round_trip(record: LogRecordView, rest: Seq<u8>)
    requires
        encodable(record),
    ensures
        parse_frame(frame_of(record) + rest) == Some((record, frame_of(record).len() as int)),
{
    lemma_auto_spec_u64_to_from_le_bytes();
    lemma_auto_spec_u128_to_from_le_bytes();
    let key = record.identifier;
    let key_len = key.len() as int;
    let head = spec_u64_to_le_bytes(key.len() as u64);
    let stamp = spec_u128_to_le_bytes(record.event_time);
    let bytes = frame_of(record) + rest;
    assert(bytes.subrange(0, 8) =~= head);
    match record.data {
        Some(value) => {
            let value_len = value.len() as int;
            let middle = spec_u64_to_le_bytes(value.len() as u64);
            assert(bytes[8] == 0);
            assert(bytes.subrange(9, 17) =~= middle);
            assert(bytes.subrange(17, 17 + key_len) =~= key);
            assert(bytes.subrange(17 + key_len, 17 + key_len + value_len) =~= value);
            assert(bytes.subrange(17 + key_len + value_len, 33 + key_len + value_len) =~= stamp);
        },
        None => {
            assert(bytes[8] == 1);
            assert(bytes.subrange(9, 9 + key_len) =~= key);
            assert(bytes.subrange(9 + key_len, 25 + key_len) =~= stamp);
        },
    }
}

/// Appending a record to a log appends its frame.
pub proof fn lemma_encode_log_push(records: Seq<LogRecordView>, record: LogRecordView)
    ensures
        encode_log(records.push(record)) == encode_log(records) + frame_of(record),
    decreases records.len(),
{
    let all = records.push(record);
    if records.len() == 0 {
        assert(all.drop_first() =~= Seq::<LogRecordView>::empty());
        assert(encode_log(all.drop_first()) =~= Seq::<u8>::empty());
        assert(encode_log(all) =~= frame_of(record));
        assert(encode_log(records) + frame_of(record) =~= frame_of(record));
    } else {
        assert(all.drop_first() =~= records.drop_first().push(record));
        lemma_encode_log_push(records.drop_first(), record);
        assert(encode_log(all) =~= encode_log(records) + frame_of(record));
    }
}

/// Log round trip: the frames of `records`, followed by anything, read back as
/// `records` and then whatever the rest reads as.
pub proof fn lemma_log_round_trip(records: Seq<LogRecordView>, rest: Seq<u8>)
    requires
        forall|i: int| 0 <= i < records.len() ==> encodable(#[trigger] records[i]),
    ensures
        parse_log(encode_log(records) + rest) == records + parse_log(rest),
    decreases records.len(),
{
    if records.len() == 0 {
        assert(encode_log(records) + rest =~= rest);
        assert(records + parse_log(rest) =~= parse_log(rest));
    } else {
        let first = records.first();
        let tail = records.drop_first();
        let bytes = encode_log(records) + rest;
        assert(bytes =~= frame_of(first) + (encode_log(tail) + rest));
        lemma_frame_round_trip(first, encode_log(tail) + rest);
        assert(bytes.skip(frame_of(first).len() as int) =~= encode_log(tail) + rest);
        assert forall|i: int| 0 <= i < tail.len() implies encodable(#[trigger] tail[i]) by {
            assert(tail[i] == records[i + 1]);
        }
        lemma_log_round_trip(tail, rest);
        assert(seq![first] + (tail + parse_log(rest)) =~= records + parse_log(rest));
    }
}

/// A log made of whole frames reads back as the records it was made from.
pub proof fn lemma_parse_log_encoded(records: Seq<LogRecordView>)
    requires
        forall|i: int| 0 <= i < records.len() ==> encodable(#[trigger] records[i]),
    ensures
        parse_log(encode_log(records)) == records,
{
    lemma_log_round_trip(records, Seq::empty());
    assert(encode_log(records) + Seq::<u8>::empty() =~= encode_log(records));
    assert(parse_frame(Seq::<u8>::empty()) is None);
    assert(records + parse_log(Seq::<u8>::empty()) =~= records);
}

/// Every record read from a log is one that a frame can hold.
pub proof fn lemma_parse_log_encodable(bytes: Seq<u8>)
    ensures
        forall|i: int| 0 <= i < parse_log(bytes).len() ==> encodable(#[trigger] parse_log(bytes)[i]),
    decreases bytes.len(),
{
    lemma_parse_frame_bounds(bytes);
    if let Some((record, length)) = parse_frame(bytes) {
        let tail = parse_log(bytes.skip(length));
        lemma_parse_log_encodable(bytes.skip(length));
        assert forall|i: int| 0 <= i < parse_log(bytes).len() implies encodable(
            #[trigger] parse_log(bytes)[i],
        ) by {
            if i > 0 {
                assert(parse_log(bytes)[i] == tail[i - 1]);
            }
        }
    }
}

} // verus!
