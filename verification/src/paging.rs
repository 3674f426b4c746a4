//! The paging discipline: how a leaf's value range `[0, len)` is partitioned
//! into consecutive windows of at most `page_size` values, and what it means
//! for a column descriptor to lay those windows out as pages in a byte sink.

use vstd::prelude::*;
use vstd::arithmetic::div_mod::{
    lemma_fundamental_div_mod, lemma_fundamental_div_mod_converse, lemma_mod_bound,
};
use crate::codec::{page_decode, page_encoding};
use crate::leaf::LeafModel;
use crate::meta::{
    lemma_psum_monotone, lemma_psum_nonneg, psum, ColumnMeta, Compression, PageMeta, WriteOptions,
};

verus! {

/// The page size a write call uses: the configured cap, bounded by the batch
/// row count; the row count itself when no cap is configured.
pub open spec fn page_size_of(o: WriteOptions, rows: int) -> int {
    match o.max_page_size {
        Some(m) => if (m as int) < rows {
            m as int
        } else {
            rows
        },
        None => rows,
    }
}

/// How many windows of size ps cover len values (ceiling division).
pub open spec fn window_count(len: int, ps: int) -> int {
    if ps <= 0 {
        0
    } else {
        (len + ps - 1) / ps
    }
}

/// The first value index of window j; clamped to len past the last window.
pub open spec fn window_start(len: int, ps: int, j: int) -> int {
    if j * ps <= len {
        j * ps
    } else {
        len
    }
}

/// The j-th window of the values.
pub open spec fn window_of(values: Seq<u64>, ps: int, j: int) -> Seq<u64> {
    values.subrange(
        window_start(values.len() as int, ps, j),
        window_start(values.len() as int, ps, j + 1),
    )
}

/// The j-th window of a leaf, as a leaf model of the same type.
pub open spec fn window_model(m: LeafModel, ps: int, j: int) -> LeafModel {
    LeafModel { ptype: m.ptype, values: window_of(m.values, ps, j) }
}

/// The first j windows, concatenated in order.
pub open spec fn windows_concat(values: Seq<u64>, ps: int, j: int) -> Seq<u64>
    decreases j,
{
    if j <= 0 {
        Seq::empty()
    } else {
        windows_concat(values, ps, j - 1) + window_of(values, ps, j - 1)
    }
}

pub proof fn lemma_window_count_bounds(len: int, ps: int)
    requires
        ps >= 1,
        len >= 0,
    ensures
        window_count(len, ps) >= 0,
        window_count(len, ps) * ps >= len,
        len > 0 ==> (window_count(len, ps) - 1) * ps < len && window_count(len, ps) >= 1,
        len == 0 ==> window_count(len, ps) == 0,
{
    let c = window_count(len, ps);
    lemma_fundamental_div_mod(len + ps - 1, ps);
    lemma_mod_bound(len + ps - 1, ps);
    let r = (len + ps - 1) % ps;
    assert(len + ps - 1 == ps * c + r);
    assert(c * ps == ps * c) by (nonlinear_arith);
    assert((c - 1) * ps == ps * c - ps) by (nonlinear_arith);
    if c < 0 {
        assert(ps * c <= -ps) by (nonlinear_arith)
            requires
                c <= -1,
                ps >= 1,
        ;
    }
    if c == 0 {
        assert(ps * c == 0) by (nonlinear_arith)
            requires
                c == 0,
        ;
    }
    if len == 0 && c >= 1 {
        assert(ps * c >= ps) by (nonlinear_arith)
            requires
                c >= 1,
                ps >= 1,
        ;
    }
}

/// Within the window range, windows are non-empty, start at multiples of ps,
/// and hold at most ps values.
pub proof fn lemma_window_bounds(len: int, ps: int, j: int)
    requires
        ps >= 1,
        len >= 0,
        0 <= j < window_count(len, ps),
    ensures
        window_start(len, ps, j) == j * ps,
        j * ps < len,
        window_start(len, ps, j) < window_start(len, ps, j + 1) <= len,
        window_start(len, ps, j + 1) - window_start(len, ps, j) <= ps,
        window_start(len, ps, j + 1) == if (j + 1) * ps <= len {
            (j + 1) * ps
        } else {
            len
        },
        j + 1 < window_count(len, ps) ==> window_start(len, ps, j + 1) == (j + 1) * ps,
        (j + 1) * ps == j * ps + ps,
{
    let c = window_count(len, ps);
    lemma_window_count_bounds(len, ps);
    assert(j * ps <= (c - 1) * ps) by (nonlinear_arith)
        requires
            j <= c - 1,
            ps >= 1,
    ;
    assert((j + 1) * ps == j * ps + ps) by (nonlinear_arith);
    if j + 1 < c {
        assert((j + 1) * ps <= (c - 1) * ps) by (nonlinear_arith)
            requires
                j + 1 <= c - 1,
                ps >= 1,
        ;
    }
}

/// Past the last window, the window start is the whole length.
pub proof fn lemma_window_start_end(len: int, ps: int, j: int)
    requires
        ps >= 1,
        len >= 0,
        j >= window_count(len, ps),
    ensures
        window_start(len, ps, j) == len,
{
    let c = window_count(len, ps);
    lemma_window_count_bounds(len, ps);
    assert(j * ps >= c * ps) by (nonlinear_arith)
        requires
            j >= c,
            ps >= 1,
    ;
}

/// The first j windows concatenate to the values taken up to window j's start.
pub proof fn lemma_windows_concat_prefix(values: Seq<u64>, ps: int, j: int)
    requires
        ps >= 1,
        0 <= j <= window_count(values.len() as int, ps),
    ensures
        windows_concat(values, ps, j) == values.take(window_start(values.len() as int, ps, j)),
    decreases j,
{
    let len = values.len() as int;
    if j == 0 {
        assert(0 * ps == 0) by (nonlinear_arith);
        assert(windows_concat(values, ps, 0) =~= values.take(window_start(len, ps, 0)));
    } else {
        lemma_windows_concat_prefix(values, ps, j - 1);
        lemma_window_bounds(len, ps, j - 1);
        assert(values.take(window_start(len, ps, j - 1)) + window_of(values, ps, j - 1)
            =~= values.take(window_start(len, ps, j)));
    }
}

/// All windows concatenate back to the values: the partition covers the leaf
/// exactly, with nothing repeated and nothing dropped.
pub proof fn lemma_windows_concat_all(values: Seq<u64>, ps: int)
    requires
        ps >= 1,
    ensures
        windows_concat(values, ps, window_count(values.len() as int, ps)) == values,
{
    let len = values.len() as int;
    let c = window_count(len, ps);
    lemma_window_count_bounds(len, ps);
    lemma_windows_concat_prefix(values, ps, c);
    lemma_window_start_end(len, ps, c);
    assert(values.take(len) =~= values);
}

/// No window is longer than the first one.
pub proof fn lemma_window_fits_first(len: int, ps: int, j: int)
    requires
        ps >= 1,
        len >= 0,
        0 <= j < window_count(len, ps),
    ensures
        window_start(len, ps, j + 1) - window_start(len, ps, j) <= window_start(len, ps, 1),
{
    lemma_window_count_bounds(len, ps);
    lemma_window_bounds(len, ps, j);
    lemma_window_bounds(len, ps, 0);
    assert(window_start(len, ps, 1) == if ps <= len {
        ps
    } else {
        len
    });
}

/// The j-th page of a column whose pages start at `offset`: its descriptor
/// counts the j-th window's values, its body in the sink is exactly that
/// window's encoding, and the body decodes back to the window.
pub open spec fn page_ok(
    offset: int,
    pages: Seq<PageMeta>,
    m: LeafModel,
    ps: int,
    c: Compression,
    sink: Seq<u8>,
    j: int,
) -> bool {
    let p = pages[j];
    let start = offset + psum(pages, j);
    let body = sink.subrange(start, start + p.length);
    &&& p.num_values == window_of(m.values, ps, j).len()
    &&& p.length == page_encoding(window_model(m, ps, j), c).len()
    &&& p.num_values > 0 ==> p.length > 0
    &&& body == page_encoding(window_model(m, ps, j), c)
    &&& page_decode(body, p.num_values as int, m.ptype, c) == Some(window_model(m, ps, j))
}

/// A column's pages, starting at `offset`, lay the leaf's windows back to
/// back in the sink, one page per window.
pub open spec fn pages_valid(
    offset: int,
    pages: Seq<PageMeta>,
    m: LeafModel,
    ps: int,
    c: Compression,
    sink: Seq<u8>,
) -> bool {
    &&& pages.len() == window_count(m.values.len() as int, ps)
    &&& offset >= 0
    &&& offset + psum(pages, pages.len() as int) <= sink.len()
    &&& forall|j: int| 0 <= j < pages.len() ==> #[trigger] page_ok(offset, pages, m, ps, c, sink, j)
}

/// A column descriptor is valid for a leaf when its pages are.
pub open spec fn col_meta_valid(
    meta: ColumnMeta,
    m: LeafModel,
    ps: int,
    c: Compression,
    sink: Seq<u8>,
) -> bool {
    pages_valid(meta.offset as int, meta.pages@, m, ps, c, sink)
}

/// Page bodies sit below the column's end.
pub proof fn lemma_page_in_range(offset: int, pages: Seq<PageMeta>, j: int)
    requires
        0 <= j < pages.len(),
    ensures
        0 <= psum(pages, j),
        psum(pages, j) + pages[j].length == psum(pages, j + 1),
        psum(pages, j + 1) <= psum(pages, pages.len() as int),
{
    lemma_psum_nonneg(pages, j);
    lemma_psum_monotone(pages, j + 1, pages.len() as int);
}

/// Appending bytes to the sink disturbs no already-written page.
pub proof fn lemma_pages_valid_grow(
    offset: int,
    pages: Seq<PageMeta>,
    m: LeafModel,
    ps: int,
    c: Compression,
    s1: Seq<u8>,
    s2: Seq<u8>,
)
    requires
        pages_valid(offset, pages, m, ps, c, s1),
        s1.is_prefix_of(s2),
    ensures
        pages_valid(offset, pages, m, ps, c, s2),
{
    assert forall|j: int| 0 <= j < pages.len() implies #[trigger] page_ok(
        offset,
        pages,
        m,
        ps,
        c,
        s2,
        j,
    ) by {
        assert(page_ok(offset, pages, m, ps, c, s1, j));
        lemma_page_in_range(offset, pages, j);
        let p = pages[j];
        let start = offset + psum(pages, j);
        assert(s2.subrange(start, start + p.length) =~= s1.subrange(start, start + p.length));
    }
}

} // verus!
