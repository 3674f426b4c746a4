//! A columnar, page-oriented storage engine: the writer splits each leaf
//! column of a batch into row-count-bounded windows, encodes every window as
//! an independently addressable page, and records per-page and per-column
//! metadata; the reader opens one column's byte range and decodes its pages
//! lazily, reusing a scratch buffer across calls.

pub mod meta;
pub mod leaf;
pub mod codec;
pub mod paging;
pub mod writer;
pub mod reader;
pub mod laws;
