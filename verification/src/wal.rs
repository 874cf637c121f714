//! The write-ahead log: every change is framed and handed out for the log file
//! before the table sees it, and at start-up the old logs are replayed into a
//! fresh table and a fresh log.

use crate::frame::{
    encodable, encode_log, frame_of, insertion_frame, lemma_encode_log_push, lemma_frame_length,
    lemma_parse_frame_bounds, lemma_parse_log_encodable, lemma_parse_log_encoded, parse_frame,
    parse_log, removal_frame,
};
use crate::log_file::{
    file_views, lemma_insert_in_slot, lemma_replay_order, order_for_replay, replay_order,
    replay_rank, slot, LogFile, LogFileView,
};
use crate::mem_table::{
    footprint, lemma_footprint_insert, lemma_footprint_update, lemma_rank_splits,
    lemma_upsert_well_formed, live_record, rank, record_footprint, tombstone, upsert, well_formed,
    InMemoryTable, RecordView,
};
use crate::utils::{wal_file_name, wal_name};
use crate::wal_iterator::{LogFileIterator, LogRecordView};
use vstd::bytes::{u128_to_le_bytes, u64_to_le_bytes};
use vstd::prelude::*;

verus! {

/// The table after one log record is applied to it: a write for a record that
/// carries a value, a tombstone for one that does not.
pub open spec fn apply_record(s: Seq<RecordView>, record: LogRecordView) -> Seq<RecordView> {
    match record.data {
        Some(value) => upsert(s, live_record(record.identifier, value, record.event_time)),
        None => upsert(s, tombstone(record.identifier, record.event_time)),
    }
}

/// The table after the records are applied in order. The last record for a key
/// wins, whatever the timestamps say.
pub open spec fn replay(s: Seq<RecordView>, records: Seq<LogRecordView>) -> Seq<RecordView>
    decreases records.len(),
{
    if records.len() == 0 {
        s
    } else {
        replay(apply_record(s, records.first()), records.drop_first())
    }
}

/// Every table on the way through a replay has a footprint that fits in `usize`.
pub open spec fn replay_fits(s: Seq<RecordView>, records: Seq<LogRecordView>) -> bool
    decreases records.len(),
{
    records.len() == 0 || {
        &&& footprint(apply_record(s, records.first())) <= usize::MAX
        &&& replay_fits(apply_record(s, records.first()), records.drop_first())
    }
}

/// A write adds at most the footprint of its record.
pub proof fn lemma_footprint_upsert(s: Seq<RecordView>, r: RecordView)
    requires
        well_formed(s),
    ensures
        footprint(upsert(s, r)) <= footprint(s) + record_footprint(r),
{
    lemma_rank_splits(s, r.key);
    let p = rank(s, r.key) as int;
    if p < s.len() && s[p].key == r.key {
        lemma_footprint_update(s, p, r);
    } else {
        lemma_footprint_insert(s, p, r);
    }
}

/// Applying a record that a frame can hold keeps the table well formed and adds
/// less than the length of its frame to the footprint.
pub proof fn lemma_apply_record(s: Seq<RecordView>, record: LogRecordView)
    requires
        well_formed(s),
        encodable(record),
    ensures
        well_formed(apply_record(s, record)),
        footprint(apply_record(s, record)) + 8 <= footprint(s) + frame_of(record).len(),
{
    lemma_frame_length(record);
    match record.data {
        Some(value) => {
            let r = live_record(record.identifier, value, record.event_time);
            lemma_upsert_well_formed(s, r);
            lemma_footprint_upsert(s, r);
        },
        None => {
            let r = tombstone(record.identifier, record.event_time);
            lemma_upsert_well_formed(s, r);
            lemma_footprint_upsert(s, r);
        },
    }
}

/// A log whose length, added to the footprint of the table, fits in `usize` can
/// be replayed into that table, and the table that comes of it is well formed
/// and has grown by less than the log is long.
pub proof fn lemma_replay_fits(s: Seq<RecordView>, bytes: Seq<u8>)
    requires
        well_formed(s),
        footprint(s) + bytes.len() <= usize::MAX,
    ensures
        replay_fits(s, parse_log(bytes)),
        well_formed(replay(s, parse_log(bytes))),
        footprint(replay(s, parse_log(bytes))) <= footprint(s) + bytes.len(),
    decreases bytes.len(),
{
    lemma_parse_frame_bounds(bytes);
    if let Some((record, length)) = parse_frame(bytes) {
        let rest = parse_log(bytes.skip(length));
        let records = parse_log(bytes);
        assert(records.first() == record);
        assert(records.drop_first() =~= rest);
        lemma_apply_record(s, record);
        lemma_replay_fits(apply_record(s, record), bytes.skip(length));
    }
}

/// Replaying one run of records after another is replaying them joined.
pub proof fn lemma_replay_concat(
    s: Seq<RecordView>,
    first: Seq<LogRecordView>,
    second: Seq<LogRecordView>,
)
    ensures
        replay(s, first + second) == replay(replay(s, first), second),
    decreases first.len(),
{
    if first.len() == 0 {
        assert(first + second =~= second);
    } else {
        let joined = first + second;
        assert(joined.first() == first.first());
        assert(joined.drop_first() =~= first.drop_first() + second);
        lemma_replay_concat(apply_record(s, first.first()), first.drop_first(), second);
    }
}

/// The frames of two runs of records joined are the frames of the one, then of
/// the other.
pub proof fn lemma_encode_log_concat(first: Seq<LogRecordView>, second: Seq<LogRecordView>)
    ensures
        encode_log(first + second) == encode_log(first) + encode_log(second),
    decreases second.len(),
{
    if second.len() == 0 {
        assert(first + second =~= first);
        assert(encode_log(first) + encode_log(second) =~= encode_log(first));
    } else {
        let front = second.drop_last();
        assert(first + second =~= (first + front).push(second.last()));
        assert(second =~= front.push(second.last()));
        lemma_encode_log_concat(first, front);
        lemma_encode_log_push(first + front, second.last());
        lemma_encode_log_push(front, second.last());
        assert(encode_log(first + second) =~= encode_log(first) + encode_log(second));
    }
}

/// Replay is deterministic. A store that recovered `recovered` and then wrote
/// `written` leaves a log that holds the frames of both; a store that starts from
/// that log ends with the table that the first one had.
pub proof fn lemma_replay_determinism(
    recovered: Seq<LogRecordView>,
    written: Seq<LogRecordView>,
)
    requires
        forall|i: int| 0 <= i < recovered.len() ==> encodable(#[trigger] recovered[i]),
        forall|i: int| 0 <= i < written.len() ==> encodable(#[trigger] written[i]),
    ensures
        replay(Seq::empty(), parse_log(encode_log(recovered) + encode_log(written))) == replay(
            replay(Seq::empty(), recovered),
            written,
        ),
{
    lemma_encode_log_concat(recovered, written);
    lemma_parse_log_encoded(recovered + written);
    lemma_replay_concat(Seq::empty(), recovered, written);
}

/// Recovery settles: the records read from any log, written out again as
/// recovery does, read back unchanged, so a second recovery rebuilds the same
/// table.
pub proof fn lemma_recovery_settles(bytes: Seq<u8>)
    ensures
        parse_log(encode_log(parse_log(bytes))) == parse_log(bytes),
{
    lemma_parse_log_encodable(bytes);
    lemma_parse_log_encoded(parse_log(bytes));
}

/// The records of one old log: what its contents read as, and nothing for a file
/// that could not be opened.
pub open spec fn file_records(file: LogFileView) -> Seq<LogRecordView> {
    match file.contents {
        Some(bytes) => parse_log(bytes),
        None => Seq::empty(),
    }
}

/// The records of a run of old logs, file after file.
pub open spec fn directory_records(files: Seq<LogFileView>) -> Seq<LogRecordView>
    decreases files.len(),
{
    if files.len() == 0 {
        Seq::empty()
    } else {
        file_records(files.first()) + directory_records(files.drop_first())
    }
}

/// What recovery replays: the records of the old logs, the logs taken in the
/// order of their replay.
pub open spec fn recovered_records(files: Seq<LogFileView>) -> Seq<LogRecordView> {
    directory_records(replay_order(files))
}

/// Every record that recovery replays is one that a frame can hold.
pub proof fn lemma_directory_records_encodable(files: Seq<LogFileView>)
    ensures
        forall|i: int|
            0 <= i < directory_records(files).len() ==> encodable(
                #[trigger] directory_records(files)[i],
            ),
    decreases files.len(),
{
    if files.len() > 0 {
        let head = file_records(files.first());
        let tail = directory_records(files.drop_first());
        if let Some(bytes) = files.first().contents {
            lemma_parse_log_encodable(bytes);
        }
        lemma_directory_records_encodable(files.drop_first());
        assert forall|i: int| 0 <= i < directory_records(files).len() implies encodable(
            #[trigger] directory_records(files)[i],
        ) by {
            if i < head.len() {
                assert(directory_records(files)[i] == head[i]);
            } else {
                assert(directory_records(files)[i] == tail[i - head.len()]);
            }
        }
    }
}

/// A replay that fits can be made in two parts.
pub proof fn lemma_replay_fits_concat(
    s: Seq<RecordView>,
    first: Seq<LogRecordView>,
    second: Seq<LogRecordView>,
)
    requires
        replay_fits(s, first + second),
    ensures
        replay_fits(s, first),
        replay_fits(replay(s, first), second),
    decreases first.len(),
{
    if first.len() == 0 {
        assert(first + second =~= second);
    } else {
        let joined = first + second;
        assert(joined.first() == first.first());
        assert(joined.drop_first() =~= first.drop_first() + second);
        lemma_replay_fits_concat(apply_record(s, first.first()), first.drop_first(), second);
    }
}

/// A replay in two parts that each fit is one that fits.
pub proof fn lemma_replay_fits_joined(
    s: Seq<RecordView>,
    first: Seq<LogRecordView>,
    second: Seq<LogRecordView>,
)
    requires
        replay_fits(s, first),
        replay_fits(replay(s, first), second),
    ensures
        replay_fits(s, first + second),
    decreases first.len(),
{
    if first.len() == 0 {
        assert(first + second =~= second);
    } else {
        let joined = first + second;
        assert(joined.first() == first.first());
        assert(joined.drop_first() =~= first.drop_first() + second);
        lemma_replay_fits_joined(apply_record(s, first.first()), first.drop_first(), second);
    }
}

/// The bytes of all old logs together.
pub open spec fn total_bytes(files: Seq<LogFileView>) -> nat
    decreases files.len(),
{
    if files.len() == 0 {
        0
    } else {
        total_bytes(files.drop_last()) + match files.last().contents {
            Some(bytes) => bytes.len(),
            None => 0,
        }
    }
}

/// One more file adds its bytes, wherever it is put.
pub proof fn lemma_total_bytes_insert(files: Seq<LogFileView>, p: int, file: LogFileView)
    requires
        0 <= p <= files.len(),
    ensures
        total_bytes(files.insert(p, file)) == total_bytes(files) + match file.contents {
            Some(bytes) => bytes.len(),
            None => 0,
        },
    decreases files.len(),
{
    let placed = files.insert(p, file);
    if p == files.len() {
        assert(placed.drop_last() =~= files);
    } else {
        assert(placed.drop_last() =~= files.drop_last().insert(p, file));
        assert(placed.last() == files.last());
        lemma_total_bytes_insert(files.drop_last(), p, file);
    }
}

/// The order of replay does not change how many bytes there are.
pub proof fn lemma_total_bytes_replay_order(files: Seq<LogFileView>)
    ensures
        total_bytes(replay_order(files)) == total_bytes(files),
    decreases files.len(),
{
    if files.len() > 0 {
        let front = replay_order(files.drop_last());
        lemma_total_bytes_replay_order(files.drop_last());
        lemma_replay_order(files.drop_last());
        lemma_insert_in_slot(front, files.last());
        lemma_total_bytes_insert(
            front,
            slot(front, replay_rank(files.last().name)) as int,
            files.last(),
        );
    }
}

/// Logs whose bytes, added to the footprint of the table, fit in `usize` can be
/// replayed into that table one after the other.
pub proof fn lemma_directory_fits(s: Seq<RecordView>, files: Seq<LogFileView>)
    requires
        well_formed(s),
        footprint(s) + total_bytes(files) <= usize::MAX,
    ensures
        replay_fits(s, directory_records(files)),
    decreases files.len(),
{
    if files.len() > 0 {
        let first = files.first();
        let rest = files.drop_first();
        assert(files =~= rest.insert(0, first));
        lemma_total_bytes_insert(rest, 0, first);
        let records = file_records(first);
        match first.contents {
            Some(bytes) => {
                lemma_replay_fits(s, bytes);
            },
            None => {},
        }
        lemma_directory_fits(replay(s, records), rest);
        lemma_replay_fits_joined(s, records, directory_records(rest));
    }
}

/// Recovery is possible wherever the old logs together are no longer than
/// `usize` can count.
pub proof fn lemma_recovery_fits(files: Seq<LogFileView>)
    requires
        total_bytes(files) <= usize::MAX,
    ensures
        replay_fits(Seq::empty(), recovered_records(files)),
{
    lemma_total_bytes_replay_order(files);
    lemma_directory_fits(Seq::empty(), replay_order(files));
}

/// The active log as the store sees it: the name of its file and the frames that
/// were recorded and not yet handed out for writing.
pub struct WAL {
    file_name: String,
    buffer: Vec<u8>,
}

impl WAL {
    /// The name of the log's file.
    pub closed spec fn spec_file_name(&self) -> Seq<char> {
        self.file_name@
    }

    /// The bytes recorded since the last flush.
    pub closed spec fn buffered(&self) -> Seq<u8> {
        self.buffer@
    }

    /// A new, empty log, named after the time of its creation in microseconds
    /// since the epoch.
    pub fn create_new(micros: u128) -> (wal: WAL)
        ensures
            wal.spec_file_name() == wal_name(micros as nat),
            wal.buffered() == Seq::<u8>::empty(),
    {
        WAL { file_name: wal_file_name(micros), buffer: Vec::new() }
    }

    /// A log that appends to the file of the given name.
    pub fn open_existing(file_name: String) -> (wal: WAL)
        ensures
            wal.spec_file_name() == file_name@,
            wal.buffered() == Seq::<u8>::empty(),
    {
        WAL { file_name, buffer: Vec::new() }
    }

    /// The name of the log's file.
    pub fn file_name(&self) -> (name: &str)
        ensures
            name@ == self.spec_file_name(),
    {
        self.file_name.as_str()
    }

    /// Records a write of `value` under `key`: one insertion frame.
    pub fn record_insertion(&mut self, key: &[u8], value: &[u8], timestamp: u128)
        ensures
            final(self).buffered() == old(self).buffered() + insertion_frame(
                key@,
                value@,
                timestamp,
            ),
            final(self).spec_file_name() == old(self).spec_file_name(),
    {
        let key_len = u64_to_le_bytes(key.len() as u64);
        let value_len = u64_to_le_bytes(value.len() as u64);
        let stamp = u128_to_le_bytes(timestamp);
        self.buffer.extend_from_slice(key_len.as_slice());
        self.buffer.push(0);
        self.buffer.extend_from_slice(value_len.as_slice());
        self.buffer.extend_from_slice(key);
        self.buffer.extend_from_slice(value);
        self.buffer.extend_from_slice(stamp.as_slice());
        assert(self.buffer@ =~= old(self).buffer@ + insertion_frame(key@, value@, timestamp));
    }

    /// Records a deletion of `key`: one deletion frame.
    pub fn record_removal(&mut self, key: &[u8], timestamp: u128)
        ensures
            final(self).buffered() == old(self).buffered() + removal_frame(key@, timestamp),
            final(self).spec_file_name() == old(self).spec_file_name(),
    {
        let key_len = u64_to_le_bytes(key.len() as u64);
        let stamp = u128_to_le_bytes(timestamp);
        self.buffer.extend_from_slice(key_len.as_slice());
        self.buffer.push(1);
        self.buffer.extend_from_slice(key);
        self.buffer.extend_from_slice(stamp.as_slice());
        assert(self.buffer@ =~= old(self).buffer@ + removal_frame(key@, timestamp));
    }

    /// Hands out the bytes recorded since the last flush, for the caller to write
    /// to the file, and forgets them.
    pub fn flush(&mut self) -> (bytes: Vec<u8>)
        ensures
            bytes@ == old(self).buffered(),
            final(self).buffered() == Seq::<u8>::empty(),
            final(self).spec_file_name() == old(self).spec_file_name(),
    {
        let mut bytes: Vec<u8> = Vec::new();
        bytes.append(&mut self.buffer);
        assert(bytes@ =~= old(self).buffer@);
        bytes
    }

    /// Replays one old log: every frame of it is applied to `table` and recorded
    /// again in this log, with its own timestamp. A frame that is cut short ends
    /// the replay of that log.
    pub fn replay_log(&mut self, table: &mut InMemoryTable, bytes: Vec<u8>)
        requires
            old(table).wf(),
            replay_fits(old(table)@, parse_log(bytes@)),
        ensures
            final(table).wf(),
            final(table)@ == replay(old(table)@, parse_log(bytes@)),
            final(self).buffered() == old(self).buffered() + encode_log(parse_log(bytes@)),
            final(self).spec_file_name() == old(self).spec_file_name(),
    {
        let ghost all = parse_log(bytes@);
        let ghost done: Seq<LogRecordView> = Seq::empty();
        let mut frames = LogFileIterator::new(bytes);
        proof {
            assert(done + parse_log(frames.remaining()) =~= all);
            assert(encode_log(done) =~= Seq::<u8>::empty());
            assert(self.buffered() =~= old(self).buffered() + encode_log(done));
        }
        loop
            invariant
                table.wf(),
                done + parse_log(frames.remaining()) == all,
                table@ == replay(old(table)@, done),
                replay_fits(table@, parse_log(frames.remaining())),
                self.buffered() == old(self).buffered() + encode_log(done),
                self.spec_file_name() == old(self).spec_file_name(),
            ensures
                table.wf(),
                table@ == replay(old(table)@, all),
                self.buffered() == old(self).buffered() + encode_log(all),
                self.spec_file_name() == old(self).spec_file_name(),
            decreases frames.remaining().len(),
        {
            let ghost rest = frames.remaining();
            let ghost before = table@;
            let ghost written = self.buffered();
            proof {
                lemma_parse_frame_bounds(rest);
            }
            match frames.next() {
                None => {
                    proof {
                        assert(parse_log(rest) =~= Seq::<LogRecordView>::empty());
                        assert(done =~= all);
                    }
                    break ;
                },
                Some(record) => {
                    let ghost parsed = record@;
                    proof {
                        let records = parse_log(rest);
                        assert(records.first() == parsed);
                        assert(records.drop_first() =~= parse_log(frames.remaining()));
                        lemma_replay_concat(old(table)@, done, seq![parsed]);
                        assert(seq![parsed].drop_first() =~= Seq::<LogRecordView>::empty());
                        assert(replay(before, seq![parsed]) == apply_record(before, parsed)) by {
                            reveal_with_fuel(replay, 2);
                        }
                        lemma_encode_log_push(done, parsed);
                        assert(done.push(parsed) =~= done + seq![parsed]);
                        assert(done.push(parsed) + parse_log(frames.remaining()) =~= all);
                    }
                    match record.data {
                        Some(value) => {
                            table.insert(
                                record.identifier.as_slice(),
                                value.as_slice(),
                                record.event_time,
                            );
                            self.record_insertion(
                                record.identifier.as_slice(),
                                value.as_slice(),
                                record.event_time,
                            );
                        },
                        None => {
                            table.remove(record.identifier.as_slice(), record.event_time);
                            self.record_removal(record.identifier.as_slice(), record.event_time);
                        },
                    }
                    proof {
                        done = done.push(parsed);
                        assert(self.buffered() =~= old(self).buffered() + encode_log(done));
                    }
                },
            }
        }
    }

    /// Recovery: replays the old logs of a directory, oldest first, into a fresh
    /// table and into a fresh log made at `micros`. The new log holds every record
    /// again, with its own timestamp, not yet flushed; once it is flushed the old
    /// files can go.
    pub fn recover_from_directory(files: Vec<LogFile>, micros: u128) -> (recovered: (
        WAL,
        InMemoryTable,
    ))
        requires
            replay_fits(Seq::empty(), recovered_records(file_views(files@))),
        ensures
            recovered.0.spec_file_name() == wal_name(micros as nat),
            recovered.0.buffered() == encode_log(recovered_records(file_views(files@))),
            recovered.1.wf(),
            recovered.1@ == replay(Seq::empty(), recovered_records(file_views(files@))),
    {
        let ghost all = recovered_records(file_views(files@));
        let ghost done: Seq<LogRecordView> = Seq::empty();
        let ordered = order_for_replay(files);
        let ghost sorted = file_views(ordered@);
        let mut table = InMemoryTable::new();
        let mut active = WAL::create_new(micros);
        proof {
            assert(sorted.skip(0) =~= sorted);
            assert(done + directory_records(sorted.skip(0)) =~= all);
            assert(encode_log(done) =~= Seq::<u8>::empty());
        }
        for file in it: ordered
            invariant
                it.seq() == ordered@,
                sorted == file_views(ordered@),
                table.wf(),
                done + directory_records(sorted.skip(it.index() as int)) == all,
                table@ == replay(Seq::empty(), done),
                replay_fits(table@, directory_records(sorted.skip(it.index() as int))),
                active.buffered() == encode_log(done),
                active.spec_file_name() == wal_name(micros as nat),
        {
            let ghost rest = sorted.skip(it.index() as int);
            let ghost records = file_records(file@);
            proof {
                assert(rest.first() == file@);
                assert(rest.drop_first() =~= sorted.skip(it.index() + 1));
                lemma_replay_fits_concat(
                    table@,
                    records,
                    directory_records(sorted.skip(it.index() + 1)),
                );
                lemma_replay_concat(Seq::empty(), done, records);
                lemma_encode_log_concat(done, records);
                assert((done + records) + directory_records(sorted.skip(it.index() + 1)) =~= all);
            }
            match file.contents {
                Some(bytes) => {
                    active.replay_log(&mut table, bytes);
                },
                None => {
                    assert(encode_log(records) =~= Seq::<u8>::empty());
                    assert(active.buffered() =~= encode_log(done) + encode_log(records));
                },
            }
            proof {
                done = done + records;
            }
        }
        proof {
            assert(sorted.skip(ordered@.len() as int) =~= Seq::<LogFileView>::empty());
            assert(done =~= all);
        }
        (active, table)
    }
}

} // verus!
