//! The durable core of a small embedded key-value store: an ordered in-memory
//! table, the binary write-ahead log format, and the replay of logs at start-up.

pub mod disk;
pub mod frame;
pub mod key_order;
pub mod log_file;
pub mod mem_table;
pub mod utils;
pub mod wal;
pub mod wal_iterator;
