//! Two ordered-set structures: a compressed bitmap of 32-bit integers built
//! from per-block containers, and an ordered list with embedded link metadata.

pub mod array;
pub mod bitmap;
pub mod bulk;
pub mod clock;
pub mod container;
pub mod elements;
pub mod entries;
pub mod entry;
pub mod iter;
pub mod laws;
mod levels;
pub mod links;
pub mod memory;
pub mod merge;
pub mod operators;
pub mod order;
pub mod roaring;
pub mod run;
pub mod skiplist;
mod splice;
mod unlink;

pub use bulk::RangeLimit;
pub use entry::SkipListEntry;
pub use iter::Iter;
pub use links::SkipListNode;
pub use roaring::{ContainerStats, MemoryUsage, RoaringBitmap};
pub use skiplist::{SkipList, MAX_LEVEL};
