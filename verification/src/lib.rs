pub mod bytes;
pub mod engine;
pub mod error;
pub mod memory;
pub mod order;
pub mod persistent;
pub mod table;
pub mod wal;

pub use engine::Engine;
pub use error::{Error, KvResult};
pub use memory::MemoryEngine;
pub use order::{compare_keys, KeyOrder};
pub use persistent::{PersistentState, COMPACTION_THRESHOLD};
pub use table::KvTable;
pub use wal::{
    decode_record, decode_records, encode_record, replay_records, snapshot_records, WalRecord,
    HEADER_LEN, RECORD_TYPE_DELETE, RECORD_TYPE_PUT,
};
