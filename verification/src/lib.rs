//! An embedded storage-engine core built from three composable primitives:
//!
//! - a fixed-slot record [`table`](table::Table) backed by a flat byte image,
//! - a variable-length blob [`heap`](heap::Heap) with power-of-two buffers,
//! - a persisted binary-search-tree [`index`](index::Index) whose nodes live
//!   inside an ordinary table.
//!
//! Each component works on an in-memory image of its backing file; loading
//! that image from disk and writing it back is left to the embedding
//! application.

use vstd::prelude::*;

pub mod heap;
pub mod index;
pub mod person;
pub mod table;
pub mod table_trait;

verus! {

/// The failure modes of the storage primitives: a read or write that falls
/// outside the stored data, or a search that matches nothing.
#[derive(Clone, Copy, Debug, PartialEq, Eq, Structural)]
pub enum StoreError {
    /// A slot index, record ID or heap offset fell outside the stored bytes.
    OutOfBounds,
    /// An index search found no record with the requested key.
    NotFound,
}

} // verus!
