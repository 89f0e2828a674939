//! A minimal log-structured-merge key-value engine: an in-memory write buffer
//! in front of immutable sorted segments that are looked up through a sparse
//! index.

pub mod database;
pub mod encoding;
pub mod entry;
pub mod memtable;
pub mod naming;
pub mod order;
pub mod ordered;
pub mod segment;
pub mod sstable;
pub mod stream;

pub use database::{Database, DatabaseView, MEMTABLE_SIZE};
pub use entry::{Entry, EntryView, Key};
pub use memtable::MemTable;
pub use naming::{get_segment_id_from_path, segment_file_name};
pub use sstable::{SSTable, SSTableBuilder, SSTableIter, SSTableView};
