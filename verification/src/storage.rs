//! The storage layer, leaf first: little-endian integers, the value codec,
//! the page, and the page file's bookkeeping.

pub mod endian;
pub mod manager;
pub mod page;
pub mod serializer;
