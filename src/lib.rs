//! Backing storage for arena-allocated data structures: key-addressed and position-addressed
//! storages, a sparse storage that punches holes instead of shifting, and a segmented chain
//! of buffers that bounds the cost of any single reallocation.

mod iter;
mod storage;
mod list;
mod vec_impl;
mod sparse;
pub mod chain;

pub use list::{all_occupied, holes_of, kept_or_shifted, live_count, occupancy, present, shifted_all, DummyMoveFix, List, ListStorage, MoveFix};
pub use sparse::{compaction_of, law_live_count, law_round_trip, num_adds, num_removes, removed_after, sparse_step, SparseOp, moved_into, moved_through, notified, vacate_all, DefaultStorage, Slot, SparseStorage, SparseVec};
pub use sparse::Slot as SparseStorageSlot;
pub use chain::{buffer_slots, buffers_of, leading_empty, flag_of_word, flatten, offset_of, size_of_word, Chain, Iter, StorageProxy, UsizeAndFlag, BUFFER_BYTES, default_limit_of};
pub use storage::{entries_of, Storage};
pub use iter::{IntoMutIterator, IntoRefIterator};
