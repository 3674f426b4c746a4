//! The metadata model shared by the writer and the reader: the compression
//! selector, the write configuration, and the per-page / per-column
//! descriptors that tie a column's byte range to its logical values.

use vstd::prelude::*;

verus! {

/// Which byte-compression codec a write session applies to every page body.
/// A pure selector: chosen once per session, applied uniformly.
#[derive(Clone, Copy, Debug, PartialEq, Eq, Structural)]
pub enum Compression {
    /// Page bodies are the raw fixed-width encoding of the values.
    Uncompressed,
    /// Page bodies are LZ4 block-compressed with the payload size prepended.
    Lz4,
}

impl Default for Compression {
    fn default() -> (r: Self)
        ensures
            r == Compression::Uncompressed,
    {
        Compression::Uncompressed
    }
}

/// Configuration of a write session. `max_page_size` caps the number of
/// logical values per page; when absent, each batch becomes exactly one page
/// per leaf. Immutable for the lifetime of a writer.
#[derive(Clone, Copy, Debug)]
pub struct WriteOptions {
    pub compression: Compression,
    pub max_page_size: Option<usize>,
}

impl Default for WriteOptions {
    fn default() -> (r: Self)
        ensures
            r.compression == Compression::Uncompressed,
            r.max_page_size is None,
    {
        WriteOptions { compression: Compression::Uncompressed, max_page_size: None }
    }
}

/// Describes one physical page: how many bytes its encoded body occupies on
/// disk and how many logical leaf values it decodes to.
#[derive(Clone, Copy, Debug, PartialEq, Eq, Structural)]
pub struct PageMeta {
    /// Byte count of the encoded (possibly compressed) page body.
    pub length: u64,
    /// Count of logical leaf values the page decodes to.
    pub num_values: u64,
}

/// Describes one leaf column: the absolute byte offset of its first page and
/// its ordered page descriptors. The column's pages sit back to back in
/// `[offset, offset + total_len)`.
#[derive(Clone, Debug, PartialEq, Eq)]
pub struct ColumnMeta {
    pub offset: u64,
    pub pages: Vec<PageMeta>,
}

/// Sum of the byte lengths of the first `j` pages.
pub open spec fn psum(pages: Seq<PageMeta>, j: int) -> int
    decreases j,
{
    if j <= 0 {
        0
    } else {
        psum(pages, j - 1) + pages[j - 1].length
    }
}

/// Sum of the value counts of the first `j` pages.
pub open spec fn vsum(pages: Seq<PageMeta>, j: int) -> int
    decreases j,
{
    if j <= 0 {
        0
    } else {
        vsum(pages, j - 1) + pages[j - 1].num_values
    }
}

pub proof fn lemma_psum_monotone(pages: Seq<PageMeta>, i: int, j: int)
    requires
        0 <= i <= j,
    ensures
        psum(pages, i) <= psum(pages, j),
    decreases j,
{
    if i < j {
        lemma_psum_monotone(pages, i, j - 1);
    }
}

pub proof fn lemma_psum_nonneg(pages: Seq<PageMeta>, j: int)
    ensures
        psum(pages, j) >= 0,
    decreases j,
{
    if j > 0 {
        lemma_psum_nonneg(pages, j - 1);
    }
}

/// Appending a page leaves the sums over the existing prefix unchanged.
pub proof fn lemma_psum_push(pages: Seq<PageMeta>, p: PageMeta, k: int)
    requires
        k <= pages.len(),
    ensures
        psum(pages.push(p), k) == psum(pages, k),
        vsum(pages.push(p), k) == vsum(pages, k),
    decreases k,
{
    if k > 0 {
        lemma_psum_push(pages, p, k - 1);
    }
}

impl ColumnMeta {
    /// Total byte length of the column: the sum of its page lengths.
    pub open spec fn total_len_spec(&self) -> int {
        psum(self.pages@, self.pages@.len() as int)
    }

    /// Derived value: the byte length of the whole column on disk.
    pub fn total_len(&self) -> (r: u64)
        requires
            self.total_len_spec() <= u64::MAX,
        ensures
            r as int == self.total_len_spec(),
    {
        let mut total: u64 = 0;
        let mut j: usize = 0;
        while j < self.pages.len()
            invariant
                j <= self.pages@.len(),
                total as int == psum(self.pages@, j as int),
                self.total_len_spec() <= u64::MAX,
            decreases self.pages@.len() - j,
        {
            proof {
                lemma_psum_monotone(self.pages@, j + 1, self.pages@.len() as int);
            }
            total = total + self.pages[j].length;
            j = j + 1;
        }
        total
    }
}

/// The error a write operation surfaces.
#[derive(Clone, Copy, Debug, PartialEq, Eq, Structural)]
pub enum WriteError {
    /// The configuration is invalid: the effective page size is zero.
    Config,
    /// A window of a leaf is too large for the compression codec. Carries the
    /// leaf index and the bounds of the offending window.
    Encode { leaf: usize, start: usize, len: usize },
}

/// The error a read operation surfaces.
#[derive(Clone, Copy, Debug, PartialEq, Eq, Structural)]
pub enum ReadError {
    /// The byte source yielded fewer bytes than a page's recorded length, the
    /// page body is malformed, or the decoded value count disagrees with the
    /// recorded one. Fatal to the reader: the file is truncated or corrupt.
    Decode,
    /// `next_array` was called with no pages remaining: a caller contract
    /// violation, not a data error.
    Exhausted,
    /// The metadata leaf count disagrees with the schema's flattened leaf
    /// count.
    SchemaMismatch,
}

} // verus!
