//! An allocator for early boot, and a small hash map.
//!
//! [`EarlyAllocator`] hands out memory from address ranges that were donated
//! to it: bytes from the bottom of a range, whole pages from its top. It only
//! ever moves its cursors forward; what was allocated is never taken back.
//! [`state`] holds its mathematical model, [`laws`] what is proved of every
//! sequence of calls.
//!
//! [`MyHashMap`] is a separate-chaining hash map that can be filled and
//! walked.

pub mod align;
pub mod early;
pub mod laws;
pub mod my_collections;
pub mod region;
pub mod state;
pub mod table;
pub mod trace;

pub use early::EarlyAllocator;
pub use my_collections::{MyHashMap, MyHashMapIterator};
pub use region::MemUnit;
pub use state::AllocError;
