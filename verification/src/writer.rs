//! The paged column writer: splits each leaf of a batch into row-count-bounded
//! windows, encodes every window as a page appended to the byte sink, and
//! records one `ColumnMeta` per leaf per call, with offsets that make every
//! page independently addressable.

use vstd::prelude::*;
use crate::codec::{encode_page, MAX_COMPRESS_INPUT};
use crate::leaf::{width, width_of, LeafArray, LeafModel};
use crate::meta::{
    lemma_psum_push, psum, ColumnMeta, Compression, PageMeta, WriteError, WriteOptions,
};
use crate::paging::{
    col_meta_valid, lemma_pages_valid_grow, lemma_window_bounds, lemma_window_count_bounds,
    lemma_window_fits_first, lemma_window_start_end, page_ok, page_size_of, pages_valid,
    window_count, window_model, window_of, window_start,
};

verus! {

/// Length of a leaf's first window: no window of the leaf is longer.
pub open spec fn first_window_len(len: int, ps: int) -> int {
    if ps <= len {
        ps
    } else {
        len
    }
}

/// Whether every window of the leaf is small enough for the compression
/// codec; uncompressed pages always fit.
pub open spec fn leaf_fits(m: LeafModel, ps: int, c: Compression) -> bool {
    c == Compression::Lz4 ==> first_window_len(m.values.len() as int, ps) * width_of(m.ptype)
        <= MAX_COMPRESS_INPUT
}

/// Whether every leaf of the batch fits.
pub open spec fn chunk_fits(chunk: Seq<LeafArray>, ps: int, c: Compression) -> bool {
    forall|i: int| 0 <= i < chunk.len() ==> leaf_fits(#[trigger] chunk[i]@, ps, c)
}

/// Byte offset just past a column's last page.
pub open spec fn col_end(meta: ColumnMeta) -> int {
    meta.offset + psum(meta.pages@, meta.pages@.len() as int)
}

/// The columns appended from index `from` on sit back to back in the sink:
/// the first starts at `sink_start`, each next one where the previous ended,
/// and the last ends at `sink_end`.
pub open spec fn columns_packed(
    metas: Seq<ColumnMeta>,
    from: int,
    sink_start: int,
    sink_end: int,
) -> bool {
    &&& forall|i: int|
        from <= i < metas.len() ==> (#[trigger] metas[i]).offset == if i == from {
            sink_start
        } else {
            col_end(metas[i - 1])
        }
    &&& sink_end == if from < metas.len() {
        col_end(metas[metas.len() - 1])
    } else {
        sink_start
    }
}

/// A write session: owns the byte sink, the running metadata list, and the
/// immutable options. The running byte offset is the sink's length.
pub struct NativeWriter {
    sink: Vec<u8>,
    options: WriteOptions,
    metas: Vec<ColumnMeta>,
}

impl NativeWriter {
    /// All bytes written so far, in offset order.
    pub closed spec fn sink_spec(&self) -> Seq<u8> {
        self.sink@
    }

    /// One `ColumnMeta` per leaf per `encode_chunk` call, in write order.
    pub closed spec fn metas_spec(&self) -> Seq<ColumnMeta> {
        self.metas@
    }

    pub closed spec fn options_spec(&self) -> WriteOptions {
        self.options
    }

    /// Opens a write session with an empty sink and no metadata.
    pub fn new(options: WriteOptions) -> (r: NativeWriter)
        ensures
            r.options_spec() == options,
            r.sink_spec() == Seq::<u8>::empty(),
            r.metas_spec() == Seq::<ColumnMeta>::empty(),
    {
        NativeWriter { sink: Vec::new(), options, metas: Vec::new() }
    }

    /// The running byte offset: where the next page would start.
    pub fn offset(&self) -> (r: usize)
        ensures
            r == self.sink_spec().len(),
    {
        self.sink.len()
    }

    /// The metadata recorded so far.
    pub fn metas(&self) -> (r: &Vec<ColumnMeta>)
        ensures
            r@ == self.metas_spec(),
    {
        &self.metas
    }

    /// The bytes written so far.
    pub fn bytes(&self) -> (r: &Vec<u8>)
        ensures
            r@ == self.sink_spec(),
    {
        &self.sink
    }

    /// Ends the session, handing out the sink and the metadata.
    pub fn finish(self) -> (r: (Vec<u8>, Vec<ColumnMeta>))
        ensures
            r.0@ == self.sink_spec(),
            r.1@ == self.metas_spec(),
    {
        (self.sink, self.metas)
    }

    /// Writes one batch of `rows` logical rows, handed as its flattened
    /// leaves in schema pre-order. Each leaf is partitioned into consecutive
    /// windows of the effective page size (the final window may be shorter,
    /// never empty); each window is encoded as one page appended to the sink;
    /// each leaf gets one fresh `ColumnMeta` entry. Lockstep reconstruction
    /// across columns relies on every leaf of a call being partitioned by the
    /// same page size, which holds of every call that succeeds.
    pub fn encode_chunk(&mut self, rows: usize, chunk: &Vec<LeafArray>) -> (r: Result<
        (),
        WriteError,
    >)
        ensures
            final(self).options_spec() == old(self).options_spec(),
            old(self).sink_spec().is_prefix_of(final(self).sink_spec()),
            old(self).metas_spec().is_prefix_of(final(self).metas_spec()),
            ({
                let ps = page_size_of(old(self).options_spec(), rows as int);
                let c = old(self).options_spec().compression;
                let m0 = old(self).metas_spec().len() as int;
                match r {
                    Ok(_) => {
                        &&& ps >= 1
                        &&& chunk_fits(chunk@, ps, c)
                        &&& final(self).metas_spec().len() == m0 + chunk@.len()
                        &&& forall|i: int|
                            0 <= i < chunk@.len() ==> col_meta_valid(
                                #[trigger] final(self).metas_spec()[m0 + i],
                                chunk@[i]@,
                                ps,
                                c,
                                final(self).sink_spec(),
                            )
                        &&& columns_packed(
                            final(self).metas_spec(),
                            m0,
                            old(self).sink_spec().len() as int,
                            final(self).sink_spec().len() as int,
                        )
                    },
                    Err(WriteError::Config) => ps <= 0 && *final(self) == *old(self),
                    Err(WriteError::Encode { leaf, start, len }) => {
                        &&& ps >= 1
                        &&& c == Compression::Lz4
                        &&& leaf < chunk@.len()
                        &&& !leaf_fits(chunk@[leaf as int]@, ps, c)
                        &&& start == 0
                        &&& len as int == first_window_len(
                            chunk@[leaf as int]@.values.len() as int,
                            ps,
                        )
                    },
                }
            }),
            r is Ok <==> (page_size_of(old(self).options_spec(), rows as int) >= 1 && chunk_fits(
                chunk@,
                page_size_of(old(self).options_spec(), rows as int),
                old(self).options_spec().compression,
            )),
    {
        let ghost ps = page_size_of(self.options, rows as int);
        let ghost c0 = self.options.compression;
        let page_size: usize = match self.options.max_page_size {
            Some(m) => if m < rows {
                m
            } else {
                rows
            },
            None => rows,
        };
        if page_size == 0 {
            return Err(WriteError::Config);
        }
        let compression = self.options.compression;
        let ghost m0 = self.metas@.len() as int;
        let ghost s0 = self.sink@.len() as int;
        let mut i: usize = 0;
        while i < chunk.len()
            invariant
                i <= chunk@.len(),
                self.options == old(self).options,
                ps == page_size_of(old(self).options, rows as int),
                page_size as int == ps,
                ps >= 1,
                compression == c0,
                c0 == old(self).options.compression,
                m0 == old(self).metas@.len() as int,
                s0 == old(self).sink@.len() as int,
                old(self).sink@.is_prefix_of(self.sink@),
                self.metas@.len() == m0 + i,
                self.metas@.subrange(0, m0) == old(self).metas@,
                forall|k: int|
                    0 <= k < i ==> col_meta_valid(
                        #[trigger] self.metas@[m0 + k],
                        chunk@[k]@,
                        ps,
                        c0,
                        self.sink@,
                    ),
                forall|k: int| 0 <= k < i ==> leaf_fits(#[trigger] chunk@[k]@, ps, c0),
                columns_packed(self.metas@, m0, s0, self.sink@.len() as int),
            decreases chunk@.len() - i,
        {
            let leaf = &chunk[i];
            let length = leaf.len();
            let w = width(leaf.physical_type());
            let ghost leafm = leaf@;
            // Reject a window the compression codec cannot take before any of
            // this leaf's bytes are written.
            let first_win: usize = if length < page_size {
                length
            } else {
                page_size
            };
            proof {
                assert((first_win as int) * (w as int) <= (usize::MAX as int) * 8)
                    by (nonlinear_arith)
                    requires
                        0 <= first_win <= usize::MAX,
                        0 <= w <= 8,
                ;
            }
            if compression == Compression::Lz4 && (first_win as u128) * (w as u128) > (
            MAX_COMPRESS_INPUT as u128) {
                return Err(WriteError::Encode { leaf: i, start: 0, len: first_win });
            }
            assert(leaf_fits(leafm, ps, c0));
            let start = self.sink.len();
            let ghost scol = self.sink@;
            let ghost count = window_count(length as int, ps);
            let ghost metas_col = self.metas@;
            let mut pages: Vec<PageMeta> = Vec::new();
            let mut off: usize = 0;
            proof {
                lemma_window_count_bounds(length as int, ps);
                assert(0 * ps == 0) by (nonlinear_arith);
            }
            while off < length
                invariant
                    // configuration, fixed for the call
                    ps >= 1,
                    page_size as int == ps,
                    compression == c0,
                    i < chunk@.len(),
                    leafm == chunk@[i as int]@,
                    leaf@ == leafm,
                    length == leafm.values.len(),
                    w as int == width_of(leafm.ptype),
                    leaf_fits(leafm, ps, c0),
                    count == window_count(length as int, ps),
                    // window progress
                    pages@.len() <= count,
                    off as int == window_start(length as int, ps, pages@.len() as int),
                    off <= length,
                    // this column's pages written so far
                    scol.len() == start as int,
                    scol.is_prefix_of(self.sink@),
                    self.sink@.len() as int == start as int + psum(pages@, pages@.len() as int),
                    forall|j: int|
                        0 <= j < pages@.len() ==> #[trigger] page_ok(
                            start as int,
                            pages@,
                            leafm,
                            ps,
                            c0,
                            self.sink@,
                            j,
                        ),
                    // state of the columns before this one
                    self.options == old(self).options,
                    m0 == old(self).metas@.len() as int,
                    s0 == old(self).sink@.len() as int,
                    old(self).sink@.is_prefix_of(scol),
                    self.metas@ == metas_col,
                    self.metas@.len() == m0 + i,
                    self.metas@.subrange(0, m0) == old(self).metas@,
                    forall|k: int|
                        0 <= k < i ==> col_meta_valid(
                            #[trigger] self.metas@[m0 + k],
                            chunk@[k]@,
                            ps,
                            c0,
                            self.sink@,
                        ),
                    forall|k: int| 0 <= k < i ==> leaf_fits(#[trigger] chunk@[k]@, ps, c0),
                    columns_packed(self.metas@, m0, s0, start as int),
                decreases length - off,
            {
                let ghost j = pages@.len() as int;
                proof {
                    if j >= count {
                        lemma_window_start_end(length as int, ps, j);
                        assert(false);
                    }
                    lemma_window_bounds(length as int, ps, j);
                }
                let win = if length - off < page_size {
                    length - off
                } else {
                    page_size
                };
                let sub = leaf.slice(off, win);
                proof {
                    assert(sub@.values =~= window_of(leafm.values, ps, j));
                    assert(sub@ =~= window_model(leafm, ps, j));
                    if c0 == Compression::Lz4 {
                        lemma_window_fits_first(length as int, ps, j);
                        lemma_window_bounds(length as int, ps, 0);
                        assert(1 * ps == ps) by (nonlinear_arith);
                        assert(window_start(length as int, ps, 1) == first_window_len(
                            length as int,
                            ps,
                        ));
                        assert(sub@.values.len() * (w as int) <= first_window_len(
                            length as int,
                            ps,
                        ) * (w as int)) by (nonlinear_arith)
                            requires
                                sub@.values.len() <= first_window_len(length as int, ps),
                                w >= 0,
                        ;
                    }
                }
                let mut body = encode_page(&sub, compression);
                let blen = body.len();
                let ghost sink_before = self.sink@;
                let ghost body_bytes = body@;
                self.sink.append(&mut body);
                let ghost pages_before = pages@;
                pages.push(PageMeta { length: blen as u64, num_values: win as u64 });
                proof {
                    assert(sink_before.is_prefix_of(self.sink@)) by {
                        assert(self.sink@.take(sink_before.len() as int) =~= sink_before);
                    }
                    assert forall|jj: int| 0 <= jj <= j implies psum(pages@, jj) == psum(
                        pages_before,
                        jj,
                    ) by {
                        lemma_psum_push(pages_before, pages@[j], jj);
                    }
                    // the page just written
                    assert(psum(pages@, j + 1) == psum(pages@, j) + blen);
                    let pstart = start as int + psum(pages@, j);
                    assert(pstart == sink_before.len());
                    assert(self.sink@.subrange(pstart, pstart + blen as int) =~= body_bytes);
                    assert(page_ok(start as int, pages@, leafm, ps, c0, self.sink@, j));
                    // the pages written before it are untouched
                    assert forall|jj: int| 0 <= jj < j implies #[trigger] page_ok(
                        start as int,
                        pages@,
                        leafm,
                        ps,
                        c0,
                        self.sink@,
                        jj,
                    ) by {
                        assert(page_ok(start as int, pages_before, leafm, ps, c0, sink_before, jj));
                        crate::meta::lemma_psum_monotone(pages_before, jj + 1, j);
                        crate::meta::lemma_psum_nonneg(pages_before, jj);
                        let qstart = start as int + psum(pages_before, jj);
                        let qlen = pages_before[jj].length as int;
                        assert(self.sink@.subrange(qstart, qstart + qlen) =~= sink_before.subrange(
                            qstart,
                            qstart + qlen,
                        ));
                    }
                    // the columns written before this one are untouched
                    assert forall|k: int| 0 <= k < i implies col_meta_valid(
                        #[trigger] self.metas@[m0 + k],
                        chunk@[k]@,
                        ps,
                        c0,
                        self.sink@,
                    ) by {
                        lemma_pages_valid_grow(
                            self.metas@[m0 + k].offset as int,
                            self.metas@[m0 + k].pages@,
                            chunk@[k]@,
                            ps,
                            c0,
                            sink_before,
                            self.sink@,
                        );
                    }
                    assert(scol.is_prefix_of(self.sink@)) by {
                        assert(self.sink@.take(scol.len() as int) =~= scol);
                    }
                    assert(old(self).sink@.is_prefix_of(self.sink@)) by {
                        assert(self.sink@.take(old(self).sink@.len() as int) =~= old(self).sink@);
                    }
                }
                off = off + win;
            }
            proof {
                let j = pages@.len() as int;
                if j < count {
                    lemma_window_bounds(length as int, ps, j);
                    assert(false);
                }
                assert(pages@.len() == count);
            }
            let meta = ColumnMeta { offset: start as u64, pages };
            let ghost metas_before = self.metas@;
            self.metas.push(meta);
            proof {
                assert(col_meta_valid(meta, leafm, ps, c0, self.sink@)) by {
                    assert(pages_valid(start as int, meta.pages@, leafm, ps, c0, self.sink@));
                }
                assert(self.metas@.subrange(0, m0) =~= metas_before.subrange(0, m0));
                assert(col_end(meta) == self.sink@.len());
                assert(columns_packed(self.metas@, m0, s0, self.sink@.len() as int)) by {
                    assert forall|ii: int|
                        m0 <= ii < self.metas@.len() implies (#[trigger] self.metas@[ii]).offset
                        == if ii == m0 {
                        s0
                    } else {
                        col_end(self.metas@[ii - 1])
                    } by {
                        if ii < self.metas@.len() - 1 {
                            assert(self.metas@[ii] == metas_before[ii]);
                            assert(columns_packed(metas_before, m0, s0, start as int));
                        } else {
                            if ii == m0 {
                                assert(start as int == s0);
                            } else {
                                assert(self.metas@[ii - 1] == metas_before[ii - 1]);
                                assert(start as int == col_end(metas_before[metas_before.len()
                                    - 1]));
                            }
                        }
                    }
                }
            }
            i = i + 1;
        }
        Ok(())
    }
}

} // verus!
