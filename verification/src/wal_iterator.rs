//! Reading a log back: a forward-only walk over the frames of one log file.

use crate::frame::parse_frame;
use vstd::bytes::{u128_from_le_bytes, u64_from_le_bytes};
use vstd::prelude::*;
use vstd::slice::{slice_subrange, slice_to_vec};

verus! {

/// One record of the write-ahead log.
pub struct LogRecord {
    /// The key that the record is about.
    pub identifier: Vec<u8>,
    /// The value written, absent for a deletion.
    pub data: Option<Vec<u8>>,
    /// When the write happened, in microseconds since the Unix epoch.
    pub event_time: u128,
    /// Whether the record is a deletion.
    pub is_removed: bool,
}

/// What a log record holds, as mathematical values.
pub struct LogRecordView {
    pub identifier: Seq<u8>,
    pub data: Option<Seq<u8>>,
    pub event_time: u128,
    pub is_removed: bool,
}

impl View for LogRecord {
    type V = LogRecordView;

    open spec fn view(&self) -> LogRecordView {
        LogRecordView {
            identifier: self.identifier@,
            data: match self.data {
                Some(v) => Some(v@),
                None => None,
            },
            event_time: self.event_time,
            is_removed: self.is_removed,
        }
    }
}

/// Walks the frames of a log file, front to back.
pub struct LogFileIterator {
    bytes: Vec<u8>,
    position: usize,
}

impl LogFileIterator {
    #[verifier::type_invariant]
    spec fn in_bounds(self) -> bool {
        self.position <= self.bytes@.len()
    }

    /// The bytes that have not been read yet.
    pub closed spec fn remaining(&self) -> Seq<u8> {
        self.bytes@.skip(self.position as int)
    }

    /// An iterator over the contents of a log file.
    pub fn new(bytes: Vec<u8>) -> (iterator: LogFileIterator)
        ensures
            iterator.remaining() == bytes@,
    {
        let iterator = LogFileIterator { bytes, position: 0 };
        assert(iterator.bytes@.skip(0) =~= iterator.bytes@);
        iterator
    }

    /// Reads the next frame. Where the bytes end before the frame does, the walk is
    /// over: nothing is returned, now or later.
    pub fn next(&mut self) -> (record: Option<LogRecord>)
        ensures
            match parse_frame(old(self).remaining()) {
                Some((parsed, length)) => {
                    &&& record matches Some(r)
                    &&& r@ == parsed
                    &&& final(self).remaining() == old(self).remaining().skip(length)
                },
                None => record is None && final(self).remaining() == Seq::<u8>::empty(),
            },
    {
        proof {
            use_type_invariant(&*self);
        }
        let ghost rest = self.remaining();
        let total = self.bytes.len();
        let start = self.position;
        assert(rest.len() == total - start);
        if total - start < 9 {
            self.position = total;
            assert(self.remaining() =~= Seq::<u8>::empty());
            return None;
        }
        let stored = self.bytes.as_slice();
        let key_field = slice_subrange(stored, start, start + 8);
        assert(key_field@ =~= rest.subrange(0, 8));
        let key_len = u64_from_le_bytes(key_field);
        let is_removed = stored[start + 8] != 0;
        assert(stored@[start + 8] == rest[8]);
        let mut body = start + 9;
        let mut value_len: u64 = 0;
        if !is_removed {
            if total - start < 17 {
                self.position = total;
                assert(self.remaining() =~= Seq::<u8>::empty());
                return None;
            }
            let value_field = slice_subrange(stored, start + 9, start + 17);
            assert(value_field@ =~= rest.subrange(9, 17));
            value_len = u64_from_le_bytes(value_field);
            body = start + 17;
        }
        let room = (total - body) as u64;
        if key_len > room || value_len > room - key_len || room - key_len - value_len < 16 {
            self.position = total;
            assert(self.remaining() =~= Seq::<u8>::empty());
            return None;
        }
        let key_end = body + key_len as usize;
        let value_end = key_end + value_len as usize;
        let identifier = slice_to_vec(slice_subrange(stored, body, key_end));
        assert(identifier@ =~= rest.subrange(body - start, key_end - start));
        let data = if is_removed {
            None
        } else {
            let value = slice_to_vec(slice_subrange(stored, key_end, value_end));
            assert(value@ =~= rest.subrange(key_end - start, value_end - start));
            Some(value)
        };
        let stamp_field = slice_subrange(stored, value_end, value_end + 16);
        assert(stamp_field@ =~= rest.subrange(value_end - start, value_end + 16 - start));
        let event_time = u128_from_le_bytes(stamp_field);
        self.position = value_end + 16;
        assert(self.remaining() =~= rest.skip(value_end + 16 - start));
        Some(LogRecord { identifier, data, event_time, is_removed })
    }
}

} // verus!
