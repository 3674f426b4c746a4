//! The engine's laws: what a valid column layout guarantees to any reader.
//! Each law is stated over the spec model that the writer's and reader's
//! contracts share, so together with those contracts it covers the executable
//! round trip.

use vstd::prelude::*;
use crate::codec::page_decode;
use crate::leaf::LeafModel;
use crate::meta::{lemma_psum_monotone, lemma_psum_nonneg, psum, vsum, ColumnMeta, Compression, PageMeta};
use crate::paging::{
    col_meta_valid, lemma_page_in_range, lemma_window_bounds, lemma_window_count_bounds,
    lemma_window_start_end, lemma_windows_concat_all, page_ok, window_count, window_model,
    window_of, window_start, windows_concat,
};
use crate::reader::NativeReader;
use crate::writer::{col_end, columns_packed};

verus! {

/// The byte range a column occupies: exactly its pages, back to back.
pub open spec fn column_bytes(meta: ColumnMeta, sink: Seq<u8>) -> Seq<u8> {
    sink.subrange(
        meta.offset as int,
        meta.offset + psum(meta.pages@, meta.pages@.len() as int),
    )
}

/// The value counts of the first j pages sum to window j's start.
proof fn lemma_vsum_windows(pages: Seq<PageMeta>, values: Seq<u64>, ps: int, j: int)
    requires
        ps >= 1,
        0 <= j <= pages.len(),
        pages.len() == window_count(values.len() as int, ps),
        forall|k: int|
            0 <= k < pages.len() ==> (#[trigger] pages[k]).num_values == window_of(
                values,
                ps,
                k,
            ).len(),
    ensures
        vsum(pages, j) == window_start(values.len() as int, ps, j),
    decreases j,
{
    let len = values.len() as int;
    if j == 0 {
        assert(0 * ps == 0) by (nonlinear_arith);
    } else {
        lemma_vsum_windows(pages, values, ps, j - 1);
        lemma_window_bounds(len, ps, j - 1);
    }
}

/// Page partition covers the column: the page value counts sum to the leaf's
/// logical length, and the page byte lengths sum to the column's byte extent.
pub proof fn lemma_pages_cover_column(
    meta: ColumnMeta,
    m: LeafModel,
    ps: int,
    c: Compression,
    sink: Seq<u8>,
)
    requires
        ps >= 1,
        col_meta_valid(meta, m, ps, c, sink),
    ensures
        vsum(meta.pages@, meta.pages@.len() as int) == m.values.len(),
        meta.total_len_spec() == psum(meta.pages@, meta.pages@.len() as int),
        column_bytes(meta, sink).len() == meta.total_len_spec(),
{
    let len = m.values.len() as int;
    let n = meta.pages@.len() as int;
    lemma_window_count_bounds(len, ps);
    assert forall|k: int| 0 <= k < n implies (#[trigger] meta.pages@[k]).num_values == window_of(
        m.values,
        ps,
        k,
    ).len() by {
        assert(page_ok(meta.offset as int, meta.pages@, m, ps, c, sink, k));
    }
    lemma_vsum_windows(meta.pages@, m.values, ps, n);
    lemma_window_start_end(len, ps, n);
    lemma_psum_nonneg(meta.pages@, n);
}

/// Page size bound: every page before the last holds exactly `ps` values; the
/// last holds between 1 and `ps`; a page with values occupies bytes.
pub proof fn lemma_page_size_bound(
    meta: ColumnMeta,
    m: LeafModel,
    ps: int,
    c: Compression,
    sink: Seq<u8>,
)
    requires
        ps >= 1,
        col_meta_valid(meta, m, ps, c, sink),
    ensures
        forall|j: int|
            0 <= j < meta.pages@.len() ==> 0 < (#[trigger] meta.pages@[j]).num_values <= ps,
        forall|j: int|
            0 <= j < meta.pages@.len() - 1 ==> (#[trigger] meta.pages@[j]).num_values == ps,
        forall|j: int|
            0 <= j < meta.pages@.len() ==> (#[trigger] meta.pages@[j]).length > 0,
{
    let len = m.values.len() as int;
    let n = meta.pages@.len() as int;
    lemma_window_count_bounds(len, ps);
    assert forall|j: int| 0 <= j < n implies 0 < (#[trigger] meta.pages@[j]).num_values <= ps && (
    meta.pages@[j]).length > 0 && (j < n - 1 ==> meta.pages@[j].num_values == ps) by {
        assert(page_ok(meta.offset as int, meta.pages@, m, ps, c, sink, j));
        lemma_window_bounds(len, ps, j);
        if j < n - 1 {
            lemma_window_bounds(len, ps, j + 1);
        }
    }
}

/// Offset contiguity: within a column, page byte ranges are contiguous and
/// non-overlapping, starting at the column's offset and ending at its end.
pub proof fn lemma_offset_contiguity(
    meta: ColumnMeta,
    m: LeafModel,
    ps: int,
    c: Compression,
    sink: Seq<u8>,
)
    requires
        ps >= 1,
        col_meta_valid(meta, m, ps, c, sink),
    ensures
        forall|j: int|
            0 <= j < meta.pages@.len() ==> psum(meta.pages@, j) + (
            #[trigger] meta.pages@[j]).length == psum(meta.pages@, j + 1),
        forall|j: int|
            0 <= j < meta.pages@.len() ==> 0 <= #[trigger] psum(meta.pages@, j) && psum(
                meta.pages@,
                j + 1,
            ) <= meta.total_len_spec(),
        meta.offset + meta.total_len_spec() <= sink.len(),
{
    let n = meta.pages@.len() as int;
    assert forall|j: int| 0 <= j < n implies 0 <= #[trigger] psum(meta.pages@, j) && psum(
        meta.pages@,
        j + 1,
    ) <= meta.total_len_spec() && psum(meta.pages@, j) + meta.pages@[j].length == psum(
        meta.pages@,
        j + 1,
    ) by {
        lemma_page_in_range(meta.offset as int, meta.pages@, j);
    }
}

/// Round trip: every page of a valid column decodes, from the column's own
/// byte range, back to its window of the leaf, and the windows concatenate to
/// exactly the leaf's values.
pub proof fn lemma_column_round_trip(
    meta: ColumnMeta,
    m: LeafModel,
    ps: int,
    c: Compression,
    sink: Seq<u8>,
)
    requires
        ps >= 1,
        col_meta_valid(meta, m, ps, c, sink),
    ensures
        forall|j: int|
            0 <= j < meta.pages@.len() ==> page_decode(
                column_bytes(meta, sink).subrange(
                    psum(meta.pages@, j),
                    psum(meta.pages@, j) + (#[trigger] meta.pages@[j]).length,
                ),
                meta.pages@[j].num_values as int,
                m.ptype,
                c,
            ) == Some(window_model(m, ps, j)),
        windows_concat(m.values, ps, meta.pages@.len() as int) == m.values,
{
    let n = meta.pages@.len() as int;
    let colb = column_bytes(meta, sink);
    assert forall|j: int| 0 <= j < n implies page_decode(
        colb.subrange(
            psum(meta.pages@, j),
            psum(meta.pages@, j) + (#[trigger] meta.pages@[j]).length,
        ),
        meta.pages@[j].num_values as int,
        m.ptype,
        c,
    ) == Some(window_model(m, ps, j)) by {
        assert(page_ok(meta.offset as int, meta.pages@, m, ps, c, sink, j));
        lemma_page_in_range(meta.offset as int, meta.pages@, j);
        lemma_psum_monotone(meta.pages@, j + 1, n);
        let a = psum(meta.pages@, j);
        let b = a + meta.pages@[j].length;
        assert(colb.subrange(a, b) =~= sink.subrange(meta.offset + a, meta.offset + b));
    }
    lemma_windows_concat_all(m.values, ps);
}

/// Idempotent decode: a reader whose source is exactly a valid column's byte
/// range returns, at every cursor position, exactly that window of the leaf;
/// after `pages.len()` successful calls (and never before) the queue is empty.
pub proof fn lemma_reader_returns_windows(
    rd: NativeReader,
    meta: ColumnMeta,
    m: LeafModel,
    ps: int,
    c: Compression,
    sink: Seq<u8>,
)
    requires
        ps >= 1,
        col_meta_valid(meta, m, ps, c, sink),
        rd.wf(),
        rd.source_spec() == column_bytes(meta, sink),
        rd.pages_spec() == meta.pages@,
        rd.ptype_spec() == m.ptype,
        rd.compression_spec() == c,
        rd.has_next_spec(),
    ensures
        rd.next_page_decode() == Some(window_model(m, ps, rd.cursor_spec())),
{
    let j = rd.cursor_spec();
    let n = meta.pages@.len() as int;
    lemma_column_round_trip(meta, m, ps, c, sink);
    lemma_page_in_range(meta.offset as int, meta.pages@, j);
    lemma_psum_monotone(meta.pages@, j + 1, n);
    lemma_psum_nonneg(meta.pages@, n);
    assert(rd.pos_spec() == psum(meta.pages@, j));
    assert(rd.pos_spec() + meta.pages@[j].length <= rd.source_spec().len());
}

/// Columns written back to back never overlap: an earlier column's byte
/// range ends at or before a later column's offset.
pub proof fn lemma_columns_disjoint(
    metas: Seq<ColumnMeta>,
    from: int,
    sink_start: int,
    sink_end: int,
    i: int,
    j: int,
)
    requires
        columns_packed(metas, from, sink_start, sink_end),
        from <= i < j < metas.len(),
    ensures
        col_end(metas[i]) <= metas[j].offset,
    decreases j - i,
{
    if i + 1 == j {
        assert(metas[j].offset == col_end(metas[j - 1]));
    } else {
        lemma_columns_disjoint(metas, from, sink_start, sink_end, i, j - 1);
        lemma_psum_nonneg(metas[j - 1].pages@, metas[j - 1].pages@.len() as int);
        assert(metas[j].offset == col_end(metas[j - 1]));
    }
}

/// Finds the page whose byte range crosses position t.
proof fn find_crossing(pages: Seq<PageMeta>, t: int, n: int) -> (j: int)
    requires
        0 <= n <= pages.len(),
        0 <= t < psum(pages, n),
    ensures
        0 <= j < n,
        psum(pages, j) <= t < psum(pages, j + 1),
    decreases n,
{
    if psum(pages, n - 1) <= t {
        n - 1
    } else {
        find_crossing(pages, t, n - 1)
    }
}

/// Corruption surfaces: truncate a valid column's byte range anywhere and
/// there is a page whose byte range overruns the truncated source — a reader
/// there must fail with a decode error — while every page before it still
/// decodes to its window. Nothing truncated is ever returned silently.
#[verifier::rlimit(50)]
pub proof fn lemma_truncation_detected(
    meta: ColumnMeta,
    m: LeafModel,
    ps: int,
    c: Compression,
    sink: Seq<u8>,
    t: int,
)
    requires
        ps >= 1,
        col_meta_valid(meta, m, ps, c, sink),
        0 <= t < meta.total_len_spec(),
    ensures
        exists|j: int|
            {
                &&& 0 <= j < meta.pages@.len()
                &&& psum(meta.pages@, j) <= t
                &&& #[trigger] psum(meta.pages@, j) + meta.pages@[j].length > t
                &&& forall|k: int|
                    0 <= k < j ==> page_decode(
                        column_bytes(meta, sink).take(t).subrange(
                            psum(meta.pages@, k),
                            psum(meta.pages@, k) + (#[trigger] meta.pages@[k]).length,
                        ),
                        meta.pages@[k].num_values as int,
                        m.ptype,
                        c,
                    ) == Some(window_model(m, ps, k))
            },
{
    let n = meta.pages@.len() as int;
    let colb = column_bytes(meta, sink);
    let trunc = colb.take(t);
    lemma_column_round_trip(meta, m, ps, c, sink);
    let j = find_crossing(meta.pages@, t, n);
    lemma_page_in_range(meta.offset as int, meta.pages@, j);
    assert forall|k: int| 0 <= k < j implies page_decode(
        trunc.subrange(
            psum(meta.pages@, k),
            psum(meta.pages@, k) + (#[trigger] meta.pages@[k]).length,
        ),
        meta.pages@[k].num_values as int,
        m.ptype,
        c,
    ) == Some(window_model(m, ps, k)) by {
        lemma_page_in_range(meta.offset as int, meta.pages@, k);
        lemma_psum_monotone(meta.pages@, k + 1, j);
        lemma_psum_nonneg(meta.pages@, k);
        let a = psum(meta.pages@, k);
        let b = a + meta.pages@[k].length;
        assert(trunc.subrange(a, b) =~= colb.subrange(a, b));
    }
    assert(psum(meta.pages@, j) + meta.pages@[j].length == psum(meta.pages@, j + 1));
}

} // verus!
