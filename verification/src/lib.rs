//! Multi-version concurrency control for versioned key-value storage.
//!
//! Provides staged writes and snapshot-consistent reads.
//!
//! # Architecture
//!
//! - [`Table`]: in-memory versioned storage with sequence-based ordering
//! - [`View`]: read-write transaction with staged changes
//! - [`Snapshot`]: read-only point-in-time view with a fixed sequence boundary
//! - [`ViewApi`]: high-level reads and writes that own their sequence boundary
//! - [`GetAtSeq`] and [`RangeAtSeq`]: low-level reads at an explicit sequence boundary
//!
//! # Key features
//!
//! - Snapshot isolation: a reader sees the versions up to its sequence number, whatever is
//!   written after it
//! - Atomic commits: the changes of a transaction are handed over together
//! - Range reads over snapshots with staged changes

pub mod compact;
pub mod io_result;
pub mod laws;
pub mod map_key;
pub mod order;
pub mod read_at_seq;
pub mod seq_marked;
pub mod snapshot;
pub mod table;
pub mod util;
pub mod versions;
pub mod view;
pub mod view_api;
pub mod visibility;

pub use self::io_result::IOResultStream;
pub use self::map_key::MapKey;
pub use self::read_at_seq::GetAtSeq;
pub use self::read_at_seq::RangeAtSeq;
pub use self::seq_marked::InternalSeq;
pub use self::seq_marked::Marked;
pub use self::seq_marked::SeqMarked;
pub use self::snapshot::Snapshot;
pub use self::table::Table;
pub use self::view::View;
pub use self::view_api::ViewApi;
pub use self::view_api::ViewGet;
pub use self::view_api::ViewRange;
pub use self::view_api::ViewSet;
