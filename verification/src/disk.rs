//! The store: one table and one active log. A write is framed first, and reaches
//! the table only once the caller reports that the frame is safely in the log.

use crate::frame::{
    encodable, encode_log, insertion_frame, lemma_parse_log_encoded, parse_log, removal_frame,
};
use crate::log_file::{file_views, LogFile};
use crate::mem_table::{
    footprint, keys_ascending, lemma_lookup_upsert, live_record, lookup, tombstone, value_view,
    well_formed, InMemoryTable, RecordView,
};
use crate::utils::wal_name;
use crate::wal::{
    apply_record, lemma_directory_records_encodable, lemma_replay_concat, recovered_records, replay,
    replay_fits, WAL,
};
use crate::wal_iterator::{LogRecord, LogRecordView};
use vstd::prelude::*;
use vstd::slice::slice_to_vec;

verus! {

/// What a read returns: a live record's key, value and timestamp.
#[derive(Debug)]
pub struct DiskEntry {
    key: Vec<u8>,
    value: Vec<u8>,
    timestamp: u128,
}

/// What an entry holds, as mathematical values.
pub struct DiskEntryView {
    pub key: Seq<u8>,
    pub value: Seq<u8>,
    pub timestamp: u128,
}

impl View for DiskEntry {
    type V = DiskEntryView;

    closed spec fn view(&self) -> DiskEntryView {
        DiskEntryView { key: self.key@, value: self.value@, timestamp: self.timestamp }
    }
}

impl DiskEntry {
    /// The key that was read.
    pub fn key(&self) -> (key: &[u8])
        ensures
            key@ == self@.key,
    {
        self.key.as_slice()
    }

    /// The value stored under the key.
    pub fn value(&self) -> (value: &[u8])
        ensures
            value@ == self@.value,
    {
        self.value.as_slice()
    }

    /// When the value was written, in microseconds since the epoch.
    pub fn timestamp(&self) -> (timestamp: u128)
        ensures
            timestamp == self@.timestamp,
    {
        self.timestamp
    }
}

/// What a read of `key` finds in a table: the live record under it. A tombstone
/// reads as absent.
pub open spec fn visible(s: Seq<RecordView>, key: Seq<u8>) -> Option<DiskEntryView> {
    match lookup(s, key) {
        Some(record) => match record.value {
            Some(value) => Some(DiskEntryView { key: record.key, value, timestamp: record.timestamp }),
            None => None,
        },
        None => None,
    }
}

/// The log record of a write of `value` under `key`, or of a deletion of `key`
/// where `value` is `None`.
pub open spec fn write_record(key: Seq<u8>, value: Option<Seq<u8>>, timestamp: u128) -> LogRecordView {
    LogRecordView { identifier: key, data: value, event_time: timestamp, is_removed: value is None }
}

/// The store. Between the two halves of a write it remembers the change that
/// waits for the log. In proofs it also remembers every record that went to the
/// log: those that recovery wrote again, and those of the writes that were
/// completed as durable.
pub struct Disk {
    mem_table: InMemoryTable,
    wal: WAL,
    pending: Option<LogRecord>,
    durable: Ghost<Seq<LogRecordView>>,
}

impl Disk {
    /// The records of the table.
    pub closed spec fn table(&self) -> Seq<RecordView> {
        self.mem_table@
    }

    /// The change that was framed and waits for the log, if there is one.
    pub closed spec fn pending(&self) -> Option<LogRecordView> {
        match self.pending {
            Some(record) => Some(record@),
            None => None,
        }
    }

    /// The name of the active log's file.
    pub closed spec fn log_name(&self) -> Seq<char> {
        self.wal.spec_file_name()
    }

    /// The records whose frames the store has handed out for the active log and
    /// that count as written: what recovery replayed, then every completed write.
    pub closed spec fn durable_records(&self) -> Seq<LogRecordView> {
        self.durable@
    }

    /// The store's invariant: the table is well formed and is what the durable
    /// records replay to, no frame is left in the log's buffer, and a change that
    /// waits can be framed and applied.
    pub closed spec fn wf(&self) -> bool {
        &&& self.mem_table.wf()
        &&& self.wal.buffered() == Seq::<u8>::empty()
        &&& self.table() == replay(Seq::empty(), self.durable@)
        &&& forall|i: int| 0 <= i < self.durable@.len() ==> encodable(#[trigger] self.durable@[i])
        &&& self.pending() matches Some(record) ==> encodable(record) && footprint(
            apply_record(self.table(), record),
        ) <= usize::MAX
    }

    /// Opens a store over the old logs of its directory: they are replayed,
    /// oldest first, into a fresh table. With the store come the bytes of the new
    /// log, made at `micros`, which holds every replayed record again. The caller
    /// writes them to the file named by `log_file_name` and removes the old files
    /// once they are flushed.
    pub fn new(files: Vec<LogFile>, micros: u128) -> (opened: (Disk, Vec<u8>))
        requires
            replay_fits(Seq::empty(), recovered_records(file_views(files@))),
        ensures
            opened.0.wf(),
            opened.0.table() == replay(Seq::empty(), recovered_records(file_views(files@))),
            opened.0.pending() is None,
            opened.0.durable_records() == recovered_records(file_views(files@)),
            opened.0.log_name() == wal_name(micros as nat),
            opened.1@ == encode_log(recovered_records(file_views(files@))),
    {
        let ghost records = recovered_records(file_views(files@));
        proof {
            lemma_directory_records_encodable(crate::log_file::replay_order(file_views(files@)));
        }
        let (mut wal, mem_table) = WAL::recover_from_directory(files, micros);
        let bytes = wal.flush();
        (Disk { mem_table, wal, pending: None, durable: Ghost(records) }, bytes)
    }

    /// The name of the active log's file.
    pub fn log_file_name(&self) -> (name: &str)
        ensures
            name@ == self.log_name(),
    {
        self.wal.file_name()
    }

    /// Whether no write waits for the log.
    pub fn is_idle(&self) -> (idle: bool)
        ensures
            idle == (self.pending() is None),
    {
        self.pending.is_none()
    }

    /// Whether the table has room for a write of `value` under `key`, or for a
    /// deletion of `key` where `value` is `None`.
    pub fn has_room(&self, key: &[u8], value: Option<&[u8]>) -> (room: bool)
        requires
            self.wf(),
        ensures
            forall|record: LogRecordView|
                record.identifier == key@ && record.data == value_view(value) ==> room == (
                footprint(#[trigger] apply_record(self.table(), record)) <= usize::MAX),
    {
        self.mem_table.has_room(key, value)
    }

    /// Reads `key`: the live record under it, or nothing where the key is
    /// unknown or deleted.
    pub fn get(&self, key: &[u8]) -> (entry: Option<DiskEntry>)
        requires
            self.wf(),
        ensures
            match entry {
                Some(found) => visible(self.table(), key@) == Some(found@),
                None => visible(self.table(), key@) is None,
            },
    {
        match self.mem_table.fetch(key) {
            Some(record) => match &record.value {
                Some(value) => Some(
                    DiskEntry {
                        key: slice_to_vec(record.key.as_slice()),
                        value: slice_to_vec(value.as_slice()),
                        timestamp: record.timestamp,
                    },
                ),
                None => None,
            },
            None => None,
        }
    }

    /// First half of a write of `value` under `key`: returns the frame that the
    /// caller appends to the log and flushes. The table is not touched; the
    /// write waits for `complete`.
    pub fn set(&mut self, key: &[u8], value: &[u8], timestamp: u128) -> (frame: Vec<u8>)
        requires
            old(self).wf(),
            old(self).pending() is None,
            footprint(
                apply_record(old(self).table(), write_record(key@, Some(value@), timestamp)),
            ) <= usize::MAX,
        ensures
            final(self).wf(),
            frame@ == insertion_frame(key@, value@, timestamp),
            final(self).table() == old(self).table(),
            final(self).pending() == Some(write_record(key@, Some(value@), timestamp)),
            final(self).durable_records() == old(self).durable_records(),
            final(self).log_name() == old(self).log_name(),
    {
        self.wal.record_insertion(key, value, timestamp);
        let frame = self.wal.flush();
        self.pending = Some(
            LogRecord {
                identifier: slice_to_vec(key),
                data: Some(slice_to_vec(value)),
                event_time: timestamp,
                is_removed: false,
            },
        );
        assert(frame@ =~= insertion_frame(key@, value@, timestamp));
        assert(key@.len() == key.len() && value@.len() == value.len());
        frame
    }

    /// First half of a deletion of `key`: returns the frame that the caller
    /// appends to the log and flushes. The table is not touched; the deletion
    /// waits for `complete`.
    pub fn delete(&mut self, key: &[u8], timestamp: u128) -> (frame: Vec<u8>)
        requires
            old(self).wf(),
            old(self).pending() is None,
            footprint(apply_record(old(self).table(), write_record(key@, None, timestamp)))
                <= usize::MAX,
        ensures
            final(self).wf(),
            frame@ == removal_frame(key@, timestamp),
            final(self).table() == old(self).table(),
            final(self).pending() == Some(write_record(key@, None, timestamp)),
            final(self).durable_records() == old(self).durable_records(),
            final(self).log_name() == old(self).log_name(),
    {
        self.wal.record_removal(key, timestamp);
        let frame = self.wal.flush();
        self.pending = Some(
            LogRecord {
                identifier: slice_to_vec(key),
                data: None,
                event_time: timestamp,
                is_removed: true,
            },
        );
        assert(frame@ =~= removal_frame(key@, timestamp));
        assert(key@.len() == key.len());
        frame
    }

    /// Second half of a write. `durable` says whether the frame was appended to
    /// the log and flushed. If it was, the change reaches the table and the
    /// result is `Ok(1)`; if not, the table stays as it was and the result is
    /// `Err(0)`. With no write waiting nothing changes and the result is `Err(0)`.
    pub fn complete(&mut self, durable: bool) -> (outcome: Result<usize, usize>)
        requires
            old(self).wf(),
        ensures
            final(self).wf(),
            final(self).pending() is None,
            final(self).log_name() == old(self).log_name(),
            match old(self).pending() {
                Some(record) => if durable {
                    &&& outcome == Ok::<usize, usize>(1)
                    &&& final(self).table() == apply_record(old(self).table(), record)
                    &&& final(self).durable_records() == old(self).durable_records().push(record)
                } else {
                    &&& outcome == Err::<usize, usize>(0)
                    &&& final(self).table() == old(self).table()
                    &&& final(self).durable_records() == old(self).durable_records()
                },
                None => {
                    &&& outcome == Err::<usize, usize>(0)
                    &&& final(self).table() == old(self).table()
                    &&& final(self).durable_records() == old(self).durable_records()
                },
            },
    {
        match self.pending.take() {
            Some(record) => {
                if durable {
                    proof {
                        let written = self.durable@;
                        lemma_replay_concat(Seq::empty(), written, seq![record@]);
                        assert(written.push(record@) =~= written + seq![record@]);
                        assert(replay(self.table(), seq![record@]) == apply_record(
                            self.table(),
                            record@,
                        )) by {
                            assert(seq![record@].drop_first() =~= Seq::<LogRecordView>::empty());
                            reveal_with_fuel(replay, 2);
                        }
                    }
                    self.durable = Ghost(self.durable@.push(record@));
                    match record.data {
                        Some(value) => {
                            self.mem_table.insert(
                                record.identifier.as_slice(),
                                value.as_slice(),
                                record.event_time,
                            );
                        },
                        None => {
                            self.mem_table.remove(
                                record.identifier.as_slice(),
                                record.event_time,
                            );
                        },
                    }
                    Ok(1)
                } else {
                    Err(0)
                }
            },
            None => Err(0),
        }
    }
}

/// Reads see the last write: after a change to a key, that key reads as the
/// value written, or as absent after a deletion, and every other key reads as
/// before.
pub proof fn lemma_visible_after_write(s: Seq<RecordView>, record: LogRecordView, key: Seq<u8>)
    requires
        keys_ascending(s),
    ensures
        visible(apply_record(s, record), key) == if key == record.identifier {
            match record.data {
                Some(value) => Some(
                    DiskEntryView { key, value, timestamp: record.event_time },
                ),
                None => None,
            }
        } else {
            visible(s, key)
        },
{
    match record.data {
        Some(value) => {
            lemma_lookup_upsert(s, live_record(record.identifier, value, record.event_time), key);
        },
        None => {
            lemma_lookup_upsert(s, tombstone(record.identifier, record.event_time), key);
        },
    }
}

/// Replay determinism: a store that starts from the log of this one, as it
/// stands once every durable record is written, ends with the table that this
/// one has: the same keys, values, tombstones and timestamps.
pub proof fn lemma_store_replays(disk: &Disk)
    requires
        disk.wf(),
    ensures
        replay(Seq::empty(), parse_log(encode_log(disk.durable_records()))) == disk.table(),
{
    lemma_parse_log_encoded(disk.durable_records());
}

/// The table of a store keeps the table's promises: keys strictly ascend, no key
/// occurs twice, and a record is marked deleted exactly when it has no value.
pub proof fn lemma_store_table_well_formed(disk: &Disk)
    requires
        disk.wf(),
    ensures
        well_formed(disk.table()),
{
}

} // verus!
