//! A slotted-page record store: a tagged value codec, a fixed 4096-byte page
//! format and the bookkeeping of a page file.

pub mod storage;
