//! The paged column reader: owns a byte source bounded to exactly one
//! column's range, pulls pages lazily in order, and decodes each into a leaf
//! fragment, reusing one scratch buffer across calls.

use vstd::prelude::*;
use crate::codec::{decode_page, page_decode};
use crate::leaf::{LeafArray, LeafModel, PhysicalType};
use crate::meta::{psum, Compression, PageMeta, ReadError};

verus! {

/// A reader over one leaf column. `source` holds exactly the column's byte
/// range `[offset, offset + total_len)`; `pages` are its descriptors in
/// order; `scratch` is grown on demand and never shrunk.
pub struct NativeReader {
    source: Vec<u8>,
    ptype: PhysicalType,
    pages: Vec<PageMeta>,
    compression: Compression,
    cursor: usize,
    pos: usize,
    scratch: Vec<u8>,
}

impl NativeReader {
    /// The column's bytes, as handed to the constructor.
    pub closed spec fn source_spec(&self) -> Seq<u8> {
        self.source@
    }

    /// The page descriptors, in order.
    pub closed spec fn pages_spec(&self) -> Seq<PageMeta> {
        self.pages@
    }

    pub closed spec fn ptype_spec(&self) -> PhysicalType {
        self.ptype
    }

    pub closed spec fn compression_spec(&self) -> Compression {
        self.compression
    }

    /// Index of the next unconsumed page.
    pub closed spec fn cursor_spec(&self) -> int {
        self.cursor as int
    }

    /// Byte position of the next unconsumed page within the source.
    pub closed spec fn pos_spec(&self) -> int {
        self.pos as int
    }

    pub closed spec fn scratch_len_spec(&self) -> int {
        self.scratch@.len() as int
    }

    /// The reader's invariant: the cursor walks the page queue in order and
    /// the byte position is the sum of the consumed pages' lengths.
    pub open spec fn wf(&self) -> bool {
        &&& 0 <= self.cursor_spec() <= self.pages_spec().len()
        &&& self.pos_spec() == psum(self.pages_spec(), self.cursor_spec())
        &&& 0 <= self.pos_spec() <= self.source_spec().len()
    }

    /// True while an unconsumed page remains.
    pub open spec fn has_next_spec(&self) -> bool {
        self.cursor_spec() < self.pages_spec().len()
    }

    /// What the next `next_array` call must return: the decoding of the next
    /// page's byte range, or `None` when the range overruns the source
    /// (truncation) or its body does not decode (corruption).
    pub open spec fn next_page_decode(&self) -> Option<LeafModel> {
        let p = self.pages_spec()[self.cursor_spec()];
        if self.pos_spec() + p.length <= self.source_spec().len() {
            page_decode(
                self.source_spec().subrange(self.pos_spec(), self.pos_spec() + p.length),
                p.num_values as int,
                self.ptype_spec(),
                self.compression_spec(),
            )
        } else {
            None
        }
    }

    /// Opens a reader over one column's bytes with its ordered page
    /// descriptors, physical type, compression choice, and a reusable scratch
    /// buffer.
    pub fn new(
        source: Vec<u8>,
        ptype: PhysicalType,
        pages: Vec<PageMeta>,
        compression: Compression,
        scratch: Vec<u8>,
    ) -> (r: NativeReader)
        ensures
            r.wf(),
            r.source_spec() == source@,
            r.pages_spec() == pages@,
            r.ptype_spec() == ptype,
            r.compression_spec() == compression,
            r.cursor_spec() == 0,
    {
        NativeReader { source, ptype, pages, compression, cursor: 0, pos: 0, scratch }
    }

    /// True iff the page queue still holds an unconsumed page.
    pub fn has_next(&self) -> (r: bool)
        ensures
            r == self.has_next_spec(),
    {
        self.cursor < self.pages.len()
    }

    /// Pops the next page descriptor, reads exactly its `length` bytes from
    /// the source into the scratch buffer (growing it only if it is smaller),
    /// decodes them into a fragment of `num_values` values of the column's
    /// type, and returns it. Fails with `Exhausted` when no page remains, and
    /// with `Decode` when the source is truncated or the page corrupt; a
    /// failing call consumes nothing.
    pub fn next_array(&mut self) -> (r: Result<LeafArray, ReadError>)
        requires
            old(self).wf(),
        ensures
            final(self).wf(),
            final(self).source_spec() == old(self).source_spec(),
            final(self).pages_spec() == old(self).pages_spec(),
            final(self).ptype_spec() == old(self).ptype_spec(),
            final(self).compression_spec() == old(self).compression_spec(),
            final(self).scratch_len_spec() >= old(self).scratch_len_spec(),
            match r {
                Ok(a) => {
                    &&& old(self).has_next_spec()
                    &&& old(self).next_page_decode() == Some(a@)
                    &&& final(self).cursor_spec() == old(self).cursor_spec() + 1
                },
                Err(ReadError::Exhausted) => !old(self).has_next_spec() && final(self).cursor_spec()
                    == old(self).cursor_spec(),
                Err(ReadError::Decode) => old(self).has_next_spec() && old(
                    self,
                ).next_page_decode() is None && final(self).cursor_spec() == old(
                    self,
                ).cursor_spec(),
                Err(ReadError::SchemaMismatch) => false,
            },
            r is Ok <==> (old(self).has_next_spec() && old(self).next_page_decode() is Some),
    {
        if self.cursor >= self.pages.len() {
            return Err(ReadError::Exhausted);
        }
        let p = self.pages[self.cursor];
        let avail = self.source.len() - self.pos;
        if (avail as u64) < p.length {
            return Err(ReadError::Decode);
        }
        let len = p.length as usize;
        let n = self.source.len();
        // Grow the scratch buffer if this page is larger than any before it.
        while self.scratch.len() < len
            invariant
                self.scratch@.len() >= old(self).scratch_len_spec(),
                self.source@ == old(self).source_spec(),
                self.pages@ == old(self).pages_spec(),
                self.ptype == old(self).ptype_spec(),
                self.compression == old(self).compression_spec(),
                self.cursor == old(self).cursor_spec(),
                self.pos == old(self).pos_spec(),
                n == self.source@.len(),
                self.pos + len <= n,
            decreases len - self.scratch@.len(),
        {
            self.scratch.push(0);
        }
        // Read exactly `length` bytes from the bounded source.
        let mut k: usize = 0;
        while k < len
            invariant
                k <= len,
                self.scratch@.len() >= len,
                self.scratch@.len() >= old(self).scratch_len_spec(),
                self.source@ == old(self).source_spec(),
                self.pages@ == old(self).pages_spec(),
                self.ptype == old(self).ptype_spec(),
                self.compression == old(self).compression_spec(),
                self.cursor == old(self).cursor_spec(),
                self.pos == old(self).pos_spec(),
                n == self.source@.len(),
                self.pos + len <= n,
                self.scratch@.subrange(0, k as int) == self.source@.subrange(
                    self.pos as int,
                    self.pos as int + k as int,
                ),
            decreases len - k,
        {
            let b = self.source[self.pos + k];
            self.scratch.set(k, b);
            proof {
                assert(self.scratch@.subrange(0, k as int + 1) =~= self.source@.subrange(
                    self.pos as int,
                    self.pos as int + k as int + 1,
                ));
            }
            k = k + 1;
        }
        match decode_page(&self.scratch, len, p.num_values, self.ptype, self.compression) {
            Ok(a) => {
                proof {
                    assert(self.scratch@.subrange(0, len as int) == self.source@.subrange(
                        self.pos as int,
                        self.pos as int + len as int,
                    ));
                    assert(psum(self.pages@, self.cursor as int + 1) == psum(
                        self.pages@,
                        self.cursor as int,
                    ) + p.length);
                }
                self.cursor = self.cursor + 1;
                self.pos = self.pos + len;
                Ok(a)
            },
            Err(_) => Err(ReadError::Decode),
        }
    }
}

/// Checks the schema provider's contract the core depends on: the Nth entry
/// of the metadata list must correspond to the Nth leaf of the schema's
/// pre-order leaf traversal, so the counts must agree.
pub fn validate_leaf_count(meta_count: usize, schema_leaves: usize) -> (r: Result<(), ReadError>)
    ensures
        r is Ok <==> meta_count == schema_leaves,
        match r {
            Ok(_) => true,
            Err(e) => e == ReadError::SchemaMismatch,
        },
{
    if meta_count == schema_leaves {
        Ok(())
    } else {
        Err(ReadError::SchemaMismatch)
    }
}

} // verus!
