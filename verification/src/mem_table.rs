//! The ordered in-memory table: records sorted by key, one per key, with a running
//! estimate of the bytes they take.

use crate::key_order::{
    compare_keys, key_lt, lemma_key_lt_asymmetric, lemma_key_lt_total, lemma_key_lt_transitive,
    KeyOrder,
};
use vstd::prelude::*;
use vstd::slice::slice_to_vec;

verus! {

/// Bytes charged to every record besides its key and value: a 16-byte timestamp
/// and a 1-byte deletion flag.
pub const RECORD_OVERHEAD: usize = 17;

/// An entry of the table.
pub struct InMemoryRecord {
    pub key: Vec<u8>,
    pub value: Option<Vec<u8>>,
    pub timestamp: u128,
    pub is_deleted: bool,
}

/// What a record holds, as mathematical values.
pub struct RecordView {
    pub key: Seq<u8>,
    pub value: Option<Seq<u8>>,
    pub timestamp: u128,
    pub is_deleted: bool,
}

impl View for InMemoryRecord {
    type V = RecordView;

    open spec fn view(&self) -> RecordView {
        RecordView {
            key: self.key@,
            value: match self.value {
                Some(v) => Some(v@),
                None => None,
            },
            timestamp: self.timestamp,
            is_deleted: self.is_deleted,
        }
    }
}

/// The record that a write of `value` under `key` leaves in the table.
pub open spec fn live_record(key: Seq<u8>, value: Seq<u8>, timestamp: u128) -> RecordView {
    RecordView { key, value: Some(value), timestamp, is_deleted: false }
}

/// The record that a deletion of `key` leaves in the table.
pub open spec fn tombstone(key: Seq<u8>, timestamp: u128) -> RecordView {
    RecordView { key, value: None, timestamp, is_deleted: true }
}

/// The deletion flag is set exactly when the value is absent.
pub open spec fn coherent(r: RecordView) -> bool {
    r.is_deleted <==> r.value is None
}

/// Bytes charged to one record: its key, its value if it is live, and the overhead.
pub open spec fn record_footprint(r: RecordView) -> nat {
    r.key.len() + match r.value {
        Some(v) => v.len(),
        None => 0,
    } + RECORD_OVERHEAD as nat
}

/// Bytes charged to a sequence of records: the sum of their footprints.
pub open spec fn footprint(s: Seq<RecordView>) -> nat
    decreases s.len(),
{
    if s.len() == 0 {
        0
    } else {
        footprint(s.drop_last()) + record_footprint(s.last())
    }
}

/// Keys strictly ascend along the sequence.
pub open spec fn keys_ascending(s: Seq<RecordView>) -> bool {
    forall|i: int, j: int| 0 <= i < j < s.len() ==> key_lt(#[trigger] s[i].key, #[trigger] s[j].key)
}

/// What the table promises of its records: strictly ascending keys and coherent flags.
pub open spec fn well_formed(s: Seq<RecordView>) -> bool {
    &&& keys_ascending(s)
    &&& forall|i: int| 0 <= i < s.len() ==> coherent(#[trigger] s[i])
}

/// The number of records whose key comes before `key`. In a sequence with
/// ascending keys these are its first records, so this is where `key` stands or
/// would be put.
pub open spec fn rank(s: Seq<RecordView>, key: Seq<u8>) -> nat
    decreases s.len(),
{
    if s.len() == 0 {
        0
    } else {
        rank(s.drop_last(), key) + if key_lt(s.last().key, key) {
            1nat
        } else {
            0nat
        }
    }
}

/// The record stored under `key`, if there is one.
pub open spec fn lookup(s: Seq<RecordView>, key: Seq<u8>) -> Option<RecordView> {
    let p = rank(s, key) as int;
    if p < s.len() && s[p].key == key {
        Some(s[p])
    } else {
        None
    }
}

/// The sequence after `r` is written: `r` takes the place of the record with its
/// key, or is put where its key belongs.
pub open spec fn upsert(s: Seq<RecordView>, r: RecordView) -> Seq<RecordView> {
    let p = rank(s, r.key) as int;
    if p < s.len() && s[p].key == r.key {
        s.update(p, r)
    } else {
        s.insert(p, r)
    }
}

/// The bytes of a value that may be absent.
pub open spec fn value_view(value: Option<&[u8]>) -> Option<Seq<u8>> {
    match value {
        Some(v) => Some(v@),
        None => None,
    }
}

/// The views of a run of records.
pub open spec fn views(s: Seq<InMemoryRecord>) -> Seq<RecordView> {
    s.map_values(|r: InMemoryRecord| r@)
}

/// Where every record before `p` has a smaller key and none from `p` on has, the
/// rank of `key` is `p`.
pub proof fn lemma_rank_boundary(s: Seq<RecordView>, key: Seq<u8>, p: int)
    requires
        0 <= p <= s.len(),
        forall|i: int| 0 <= i < p ==> key_lt(#[trigger] s[i].key, key),
        forall|i: int| p <= i < s.len() ==> !key_lt(#[trigger] s[i].key, key),
    ensures
        rank(s, key) == p,
    decreases s.len(),
{
    if s.len() > 0 {
        let t = s.drop_last();
        if p == s.len() {
            assert(key_lt(s[p - 1].key, key));
            assert forall|i: int| 0 <= i < p - 1 implies key_lt(#[trigger] t[i].key, key) by {
                assert(t[i] == s[i]);
            }
            lemma_rank_boundary(t, key, p - 1);
        } else {
            assert(!key_lt(s[s.len() - 1].key, key));
            assert forall|i: int| 0 <= i < p implies key_lt(#[trigger] t[i].key, key) by {
                assert(t[i] == s[i]);
            }
            assert forall|i: int| p <= i < t.len() implies !key_lt(#[trigger] t[i].key, key) by {
                assert(t[i] == s[i]);
            }
            lemma_rank_boundary(t, key, p);
        }
    }
}

/// In a sequence with ascending keys, the records before the rank of `key` have
/// smaller keys, and those from it on have not.
pub proof fn lemma_rank_splits(s: Seq<RecordView>, key: Seq<u8>)
    requires
        keys_ascending(s),
    ensures
        0 <= rank(s, key) <= s.len(),
        forall|i: int| 0 <= i < rank(s, key) ==> key_lt(#[trigger] s[i].key, key),
        forall|i: int| rank(s, key) <= i < s.len() ==> !key_lt(#[trigger] s[i].key, key),
    decreases s.len(),
{
    if s.len() > 0 {
        let t = s.drop_last();
        let n = s.len() - 1;
        assert forall|i: int, j: int| 0 <= i < j < t.len() implies key_lt(
            #[trigger] t[i].key,
            #[trigger] t[j].key,
        ) by {
            assert(t[i] == s[i] && t[j] == s[j]);
        }
        lemma_rank_splits(t, key);
        let p = rank(t, key) as int;
        if key_lt(s[n].key, key) {
            assert forall|i: int| 0 <= i < n implies key_lt(#[trigger] s[i].key, key) by {
                lemma_key_lt_transitive(s[i].key, s[n].key, key);
            }
            assert(p == n) by {
                if p < n {
                    assert(t[p] == s[p]);
                }
            }
        } else {
            assert forall|i: int| 0 <= i < p implies key_lt(#[trigger] s[i].key, key) by {
                assert(t[i] == s[i]);
            }
            assert forall|i: int| p <= i < s.len() implies !key_lt(#[trigger] s[i].key, key) by {
                if i < n {
                    assert(t[i] == s[i]);
                }
            }
        }
    }
}

/// Putting a record in adds its footprint.
pub proof fn lemma_footprint_insert(s: Seq<RecordView>, p: int, r: RecordView)
    requires
        0 <= p <= s.len(),
    ensures
        footprint(s.insert(p, r)) == footprint(s) + record_footprint(r),
    decreases s.len(),
{
    let u = s.insert(p, r);
    if p == s.len() {
        assert(u.drop_last() =~= s);
    } else {
        assert(u.drop_last() =~= s.drop_last().insert(p, r));
        assert(u.last() == s.last());
        lemma_footprint_insert(s.drop_last(), p, r);
    }
}

/// Replacing a record trades the old footprint for the new one.
pub proof fn lemma_footprint_update(s: Seq<RecordView>, p: int, r: RecordView)
    requires
        0 <= p < s.len(),
    ensures
        footprint(s.update(p, r)) + record_footprint(s[p]) == footprint(s) + record_footprint(r),
    decreases s.len(),
{
    let u = s.update(p, r);
    if p == s.len() - 1 {
        assert(u.drop_last() =~= s.drop_last());
    } else {
        assert(u.drop_last() =~= s.drop_last().update(p, r));
        assert(u.last() == s.last());
        lemma_footprint_update(s.drop_last(), p, r);
    }
}

/// A write keeps the table's promises.
pub proof fn lemma_upsert_well_formed(s: Seq<RecordView>, r: RecordView)
    requires
        well_formed(s),
        coherent(r),
    ensures
        well_formed(upsert(s, r)),
{
    lemma_rank_splits(s, r.key);
    let p = rank(s, r.key) as int;
    let u = upsert(s, r);
    if p < s.len() && s[p].key == r.key {
        assert forall|i: int, j: int| 0 <= i < j < u.len() implies key_lt(
            #[trigger] u[i].key,
            #[trigger] u[j].key,
        ) by {
            assert(u[i].key == s[i].key && u[j].key == s[j].key);
        }
    } else {
        assert forall|i: int, j: int| 0 <= i < j < u.len() implies key_lt(
            #[trigger] u[i].key,
            #[trigger] u[j].key,
        ) by {
            if j < p {
                assert(u[i] == s[i] && u[j] == s[j]);
            } else if j == p {
                assert(u[i] == s[i]);
            } else if i == p {
                assert(u[j] == s[j - 1]);
                lemma_key_lt_total(r.key, s[j - 1].key);
                if j - 1 > p {
                    if s[j - 1].key == r.key {
                        lemma_key_lt_asymmetric(s[p].key, s[j - 1].key);
                        lemma_key_lt_total(s[p].key, r.key);
                    }
                }
            } else if i < p {
                assert(u[i] == s[i] && u[j] == s[j - 1]);
            } else {
                assert(u[i] == s[i - 1] && u[j] == s[j - 1]);
            }
        }
    }
}

/// The table: records in strictly ascending key order, no two with the same
/// key, and the bytes they are charged.
pub struct InMemoryTable {
    records: Vec<InMemoryRecord>,
    total_size: usize,
}

impl View for InMemoryTable {
    type V = Seq<RecordView>;

    closed spec fn view(&self) -> Seq<RecordView> {
        views(self.records@)
    }
}

impl InMemoryTable {
    /// The byte count that the table keeps.
    pub closed spec fn spec_current_size(&self) -> nat {
        self.total_size as nat
    }

    /// The table's invariant: its records are well formed and the byte count it
    /// keeps is their footprint.
    pub open spec fn wf(&self) -> bool {
        &&& well_formed(self@)
        &&& self.spec_current_size() == footprint(self@)
    }

    /// An empty table.
    pub fn new() -> (table: InMemoryTable)
        ensures
            table.wf(),
            table@ == Seq::<RecordView>::empty(),
            table.spec_current_size() == 0,
    {
        InMemoryTable { records: Vec::new(), total_size: 0 }
    }

    /// Writes `value` under `key`: the record replaces the one with that key, or
    /// goes where the key belongs.
    pub fn insert(&mut self, key: &[u8], value: &[u8], timestamp: u128)
        requires
            old(self).wf(),
            footprint(upsert(old(self)@, live_record(key@, value@, timestamp))) <= usize::MAX,
        ensures
            final(self).wf(),
            final(self)@ == upsert(old(self)@, live_record(key@, value@, timestamp)),
    {
        let new_record = InMemoryRecord {
            key: slice_to_vec(key),
            value: Some(slice_to_vec(value)),
            timestamp,
            is_deleted: false,
        };
        self.put(new_record);
    }

    /// Marks `key` as deleted: a tombstone replaces the record with that key, or
    /// goes where the key belongs.
    pub fn remove(&mut self, key: &[u8], timestamp: u128)
        requires
            old(self).wf(),
            footprint(upsert(old(self)@, tombstone(key@, timestamp))) <= usize::MAX,
        ensures
            final(self).wf(),
            final(self)@ == upsert(old(self)@, tombstone(key@, timestamp)),
    {
        let tombstone_record = InMemoryRecord {
            key: slice_to_vec(key),
            value: None,
            timestamp,
            is_deleted: true,
        };
        self.put(tombstone_record);
    }

    /// Stores `record` under its key and settles the byte count.
    fn put(&mut self, record: InMemoryRecord)
        requires
            old(self).wf(),
            coherent(record@),
            footprint(upsert(old(self)@, record@)) <= usize::MAX,
        ensures
            final(self).wf(),
            final(self)@ == upsert(old(self)@, record@),
    {
        let ghost before = self@;
        let ghost r = record@;
        let new_len: usize = match &record.value {
            Some(v) => v.len(),
            None => 0,
        };
        proof {
            lemma_upsert_well_formed(before, r);
        }
        match self.find_key_position(record.key.as_slice()) {
            Ok(index) => {
                let old_len: usize = match &self.records[index].value {
                    Some(v) => v.len(),
                    None => 0,
                };
                proof {
                    lemma_footprint_update(before, index as int, r);
                }
                if new_len < old_len {
                    self.total_size -= old_len - new_len;
                } else {
                    self.total_size += new_len - old_len;
                }
                self.records[index] = record;
                assert(self@ =~= before.update(index as int, r));
            },
            Err(index) => {
                proof {
                    lemma_footprint_insert(before, index as int, r);
                }
                self.total_size += record.key.len() + new_len + RECORD_OVERHEAD;
                self.records.insert(index, record);
                assert(self@ =~= before.insert(index as int, r));
            },
        }
    }

    /// Whether the byte count would still fit in `usize` after a write of `value`
    /// under `key`, or after a deletion of `key` where `value` is `None`. Neither
    /// the timestamp nor the flag of the record has a part in it.
    pub fn has_room(&self, key: &[u8], value: Option<&[u8]>) -> (room: bool)
        requires
            self.wf(),
        ensures
            forall|r: RecordView|
                r.key == key@ && r.value == value_view(value) ==> room == (footprint(
                    #[trigger] upsert(self@, r),
                ) <= usize::MAX),
    {
        let new_len: usize = match value {
            Some(v) => v.len(),
            None => 0,
        };
        match self.find_key_position(key) {
            Ok(index) => {
                let old_len: usize = match &self.records[index].value {
                    Some(v) => v.len(),
                    None => 0,
                };
                proof {
                    assert forall|r: RecordView|
                        r.key == key@ && r.value == value_view(value) implies footprint(
                        #[trigger] upsert(self@, r),
                    ) + old_len == footprint(self@) + new_len by {
                        lemma_footprint_update(self@, index as int, r);
                    }
                    lemma_footprint_update(self@, index as int, tombstone(Seq::empty(), 0));
                    assert(self@[index as int] == self.records@[index as int]@);
                }
                new_len <= usize::MAX - (self.total_size - old_len)
            },
            Err(index) => {
                proof {
                    assert forall|r: RecordView|
                        r.key == key@ && r.value == value_view(value) implies footprint(
                        #[trigger] upsert(self@, r),
                    ) == footprint(self@) + key@.len() + new_len + 17 by {
                        lemma_footprint_insert(self@, index as int, r);
                    }
                }
                let room = usize::MAX - self.total_size;
                key.len() <= room && new_len <= room - key.len() && RECORD_OVERHEAD <= room
                    - key.len() - new_len
            },
        }
    }

    /// The record stored under `key`, live or tombstone.
    pub fn fetch(&self, key: &[u8]) -> (found: Option<&InMemoryRecord>)
        requires
            self.wf(),
        ensures
            match found {
                Some(record) => lookup(self@, key@) == Some(record@),
                None => lookup(self@, key@) is None,
            },
    {
        match self.find_key_position(key) {
            Ok(index) => Some(&self.records[index]),
            Err(_) => None,
        }
    }

    /// Binary search for `key`: `Ok` with the index of its record, or `Err` with
    /// the index where a record with that key would be put.
    pub fn find_key_position(&self, key: &[u8]) -> (position: Result<usize, usize>)
        requires
            self.wf(),
        ensures
            match position {
                Ok(index) => index == rank(self@, key@) && index < self@.len() && self@[index as int].key
                    == key@,
                Err(index) => index == rank(self@, key@) && index <= self@.len() && (index
                    == self@.len() || self@[index as int].key != key@),
            },
    {
        let ghost s = self@;
        let mut low: usize = 0;
        let mut high: usize = self.records.len();
        while low < high
            invariant
                s == self@,
                keys_ascending(s),
                0 <= low <= high <= s.len(),
                s.len() == self.records@.len(),
                forall|i: int| 0 <= i < low ==> key_lt(#[trigger] s[i].key, key@),
                forall|i: int| high <= i < s.len() ==> key_lt(key@, #[trigger] s[i].key),
            decreases high - low,
        {
            let middle = low + (high - low) / 2;
            assert(s[middle as int] == self.records@[middle as int]@);
            match compare_keys(self.records[middle].key.as_slice(), key) {
                KeyOrder::Before => {
                    proof {
                        assert forall|i: int| 0 <= i < middle + 1 implies key_lt(
                            #[trigger] s[i].key,
                            key@,
                        ) by {
                            if i < middle {
                                lemma_key_lt_transitive(s[i].key, s[middle as int].key, key@);
                            }
                        }
                    }
                    low = middle + 1;
                },
                KeyOrder::Same => {
                    proof {
                        assert forall|i: int| middle <= i < s.len() implies !key_lt(
                            #[trigger] s[i].key,
                            key@,
                        ) by {
                            if i > middle {
                                assert(key_lt(s[middle as int].key, s[i].key));
                                lemma_key_lt_asymmetric(key@, s[i].key);
                            } else if key_lt(key@, key@) {
                                lemma_key_lt_asymmetric(key@, key@);
                            }
                        }
                        assert forall|i: int| 0 <= i < middle implies key_lt(
                            #[trigger] s[i].key,
                            key@,
                        ) by {
                            assert(key_lt(s[i].key, s[middle as int].key));
                        }
                        lemma_rank_boundary(s, key@, middle as int);
                    }
                    return Ok(middle);
                },
                KeyOrder::After => {
                    proof {
                        assert forall|i: int| middle <= i < s.len() implies key_lt(
                            key@,
                            #[trigger] s[i].key,
                        ) by {
                            if i > middle {
                                lemma_key_lt_transitive(key@, s[middle as int].key, s[i].key);
                            }
                        }
                    }
                    high = middle;
                },
            }
        }
        proof {
            assert forall|i: int| low <= i < s.len() implies !key_lt(#[trigger] s[i].key, key@) by {
                lemma_key_lt_asymmetric(key@, s[i].key);
            }
            lemma_rank_boundary(s, key@, low as int);
            if low < s.len() {
                lemma_key_lt_asymmetric(key@, s[low as int].key);
            }
        }
        Err(low)
    }

    /// The number of records, tombstones included.
    pub fn record_count(&self) -> (count: usize)
        ensures
            count == self@.len(),
    {
        self.records.len()
    }

    /// All records, in ascending key order.
    pub fn all_records(&self) -> (records: &[InMemoryRecord])
        ensures
            views(records@) == self@,
    {
        self.records.as_slice()
    }

    /// The bytes charged to the records in the table.
    pub fn current_size(&self) -> (size: usize)
        ensures
            size == self.spec_current_size(),
            self.wf() ==> size == footprint(self@),
    {
        self.total_size
    }
}

/// Ordering: in every well-formed table the keys strictly ascend.
pub proof fn lemma_table_ordered(table: &InMemoryTable, i: int, j: int)
    requires
        table.wf(),
        0 <= i < j < table@.len(),
    ensures
        key_lt(table@[i].key, table@[j].key),
{
}

/// Uniqueness: in every well-formed table no two records share a key.
pub proof fn lemma_table_keys_unique(table: &InMemoryTable, i: int, j: int)
    requires
        table.wf(),
        0 <= i < table@.len(),
        0 <= j < table@.len(),
        i != j,
    ensures
        table@[i].key != table@[j].key,
{
    if i < j {
        lemma_key_lt_asymmetric(table@[i].key, table@[j].key);
    } else {
        lemma_key_lt_asymmetric(table@[j].key, table@[i].key);
    }
}

/// Size accounting: the byte count of every well-formed table is the sum, over
/// its records, of the key's length, the value's length if the record is live,
/// and 17.
pub proof fn lemma_table_size(table: &InMemoryTable)
    requires
        table.wf(),
    ensures
        table.spec_current_size() == footprint(table@),
{
}

/// Flag coherence: in every well-formed table a record is marked deleted
/// exactly when its value is absent.
pub proof fn lemma_table_flags_coherent(table: &InMemoryTable, i: int)
    requires
        table.wf(),
        0 <= i < table@.len(),
    ensures
        table@[i].is_deleted <==> table@[i].value is None,
{
    assert(coherent(table@[i]));
}

/// Where keys ascend, `lookup` finds the record with the key wherever there is
/// one, and finds nothing else.
pub proof fn lemma_lookup_finds(s: Seq<RecordView>, key: Seq<u8>)
    requires
        keys_ascending(s),
    ensures
        lookup(s, key) matches Some(r) ==> s.contains(r) && r.key == key,
        forall|i: int| 0 <= i < s.len() && #[trigger] s[i].key == key ==> lookup(s, key) == Some(s[i]),
{
    lemma_rank_splits(s, key);
    let p = rank(s, key) as int;
    assert forall|i: int| 0 <= i < s.len() && #[trigger] s[i].key == key implies lookup(s, key)
        == Some(s[i]) by {
        if i < p {
            lemma_key_lt_asymmetric(s[i].key, key);
        } else if i > p {
            lemma_key_lt_total(s[p].key, key);
            if key_lt(key, s[p].key) {
                lemma_key_lt_asymmetric(s[p].key, s[i].key);
            }
        }
    }
}

/// A key that was written reads back as what was written, and every other key
/// reads as before.
pub proof fn lemma_lookup_upsert(s: Seq<RecordView>, r: RecordView, key: Seq<u8>)
    requires
        keys_ascending(s),
    ensures
        lookup(upsert(s, r), key) == if key == r.key {
            Some(r)
        } else {
            lookup(s, key)
        },
{
    lemma_rank_splits(s, r.key);
    lemma_rank_splits(s, key);
    let p = rank(s, r.key) as int;
    let q = rank(s, key) as int;
    let u = upsert(s, r);
    let replaced = p < s.len() && s[p].key == r.key;
    lemma_key_lt_total(r.key, key);
    if key == r.key {
        assert forall|i: int| 0 <= i < p implies key_lt(#[trigger] u[i].key, key) by {
            assert(u[i] == s[i]);
        }
        assert forall|i: int| p <= i < u.len() implies !key_lt(#[trigger] u[i].key, key) by {
            if i == p {
                if key_lt(key, key) {
                    lemma_key_lt_asymmetric(key, key);
                }
            } else if replaced {
                assert(u[i] == s[i]);
            } else {
                assert(u[i] == s[i - 1]);
            }
        }
        lemma_rank_boundary(u, key, p);
    } else if key_lt(r.key, key) {
        // `r` stands before the place of `key`.
        assert(p <= q) by {
            if q < p {
                assert(key_lt(s[q].key, r.key));
                lemma_key_lt_transitive(s[q].key, r.key, key);
            }
        }
        if replaced {
            assert(p < q);
            assert forall|i: int| 0 <= i < q implies key_lt(#[trigger] u[i].key, key) by {
                if i != p {
                    assert(u[i] == s[i]);
                }
            }
            assert forall|i: int| q <= i < u.len() implies !key_lt(#[trigger] u[i].key, key) by {
                assert(u[i] == s[i]);
            }
            lemma_rank_boundary(u, key, q);
            if q < s.len() {
                assert(u[q] == s[q]);
            }
        } else {
            assert forall|i: int| 0 <= i < q + 1 implies key_lt(#[trigger] u[i].key, key) by {
                if i < p {
                    assert(u[i] == s[i]);
                } else if i > p {
                    assert(u[i] == s[i - 1]);
                }
            }
            assert forall|i: int| q + 1 <= i < u.len() implies !key_lt(
                #[trigger] u[i].key,
                key,
            ) by {
                assert(u[i] == s[i - 1]);
            }
            lemma_rank_boundary(u, key, q + 1);
            if q < s.len() {
                assert(u[q + 1] == s[q]);
            }
        }
    } else {
        // `r` stands behind the place of `key`.
        lemma_key_lt_asymmetric(key, r.key);
        assert(q <= p) by {
            if p < q {
                assert(key_lt(s[p].key, key));
                lemma_key_lt_total(s[p].key, r.key);
                if key_lt(r.key, s[p].key) {
                    lemma_key_lt_transitive(r.key, s[p].key, key);
                }
            }
        }
        assert forall|i: int| 0 <= i < q implies key_lt(#[trigger] u[i].key, key) by {
            assert(u[i] == s[i]);
        }
        assert forall|i: int| q <= i < u.len() implies !key_lt(#[trigger] u[i].key, key) by {
            if i == p {
            } else if replaced || i < p {
                assert(u[i] == s[i]);
            } else {
                assert(u[i] == s[i - 1]);
            }
        }
        lemma_rank_boundary(u, key, q);
        if q < p {
            assert(u[q] == s[q]);
        } else if q < s.len() && replaced {
            assert(s[q].key == r.key);
        } else if q < s.len() {
            assert(u[q] == r);
        }
    }
}

} // verus!
