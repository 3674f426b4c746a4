//! The leaf codec: encodes one page's worth of values for one leaf column and
//! decodes it back. A page body is the fixed-width little-endian encoding of
//! the window's values, optionally LZ4 block-compressed; the compression
//! codec itself is an external collaborator reached through trusted wrappers.

use vstd::prelude::*;
use vstd::arithmetic::div_mod::{
    lemma_div_denominator, lemma_fundamental_div_mod, lemma_fundamental_div_mod_converse,
    lemma_mod_multiples_basic, lemma_small_mod,
};
use crate::leaf::{
    lemma_leaf_array_wf, width, width_of, type_bound, LeafArray, LeafModel, PhysicalType,
};
use crate::meta::{Compression, ReadError};

verus! {

/// Largest byte length the compression wrapper accepts for one page body.
pub const MAX_COMPRESS_INPUT: usize = 0x7fff_ffff;

/// 256 to the power n.
pub open spec fn p256(n: nat) -> int
    decreases n,
{
    if n == 0 {
        1
    } else {
        256 * p256((n - 1) as nat)
    }
}

/// The n little-endian bytes of a non-negative value.
pub open spec fn le_bytes(v: int, n: nat) -> Seq<u8>
    decreases n,
{
    if n == 0 {
        Seq::empty()
    } else {
        seq![(v % 256) as u8] + le_bytes(v / 256, (n - 1) as nat)
    }
}

/// The value a little-endian byte sequence denotes.
pub open spec fn le_val(b: Seq<u8>) -> int
    decreases b.len(),
{
    if b.len() == 0 {
        0
    } else {
        b[0] + 256 * le_val(b.drop_first())
    }
}

/// The raw page body: each value as w little-endian bytes, in order.
pub open spec fn raw_of(w: nat, values: Seq<u64>) -> Seq<u8>
    decreases values.len(),
{
    if values.len() == 0 {
        Seq::empty()
    } else {
        le_bytes(values[0] as int, w) + raw_of(w, values.drop_first())
    }
}

/// The values a raw page body denotes, w bytes each; trailing bytes that do
/// not fill a value are dropped.
pub open spec fn raw_decode(w: nat, b: Seq<u8>) -> Seq<u64>
    decreases b.len(),
{
    if w == 0 || b.len() < w {
        Seq::empty()
    } else {
        seq![le_val(b.take(w as int)) as u64] + raw_decode(w, b.skip(w as int))
    }
}

pub proof fn lemma_p256_pos(n: nat)
    ensures
        p256(n) >= 1,
    decreases n,
{
    if n > 0 {
        lemma_p256_pos((n - 1) as nat);
    }
}

/// The two widths this codec dispatches over, as powers of 256.
pub proof fn lemma_p256_vals()
    ensures
        p256(4) == 0x1_0000_0000,
        p256(8) == 0x1_0000_0000_0000_0000,
{
    assert(p256(0) == 1);
    assert(p256(1) == 256);
    assert(p256(2) == 0x1_0000);
    assert(p256(3) == 0x100_0000);
    assert(p256(4) == 0x1_0000_0000);
    assert(p256(5) == 0x100_0000_0000);
    assert(p256(6) == 0x1_0000_0000_0000);
    assert(p256(7) == 0x100_0000_0000_0000);
    assert(p256(8) == 0x1_0000_0000_0000_0000);
}

/// A type's bound is 256 to its width.
pub proof fn lemma_type_bound_p256(t: PhysicalType)
    ensures
        type_bound(t) == p256(width_of(t) as nat),
{
    lemma_p256_vals();
}

pub proof fn lemma_le_bytes_len(v: int, n: nat)
    ensures
        le_bytes(v, n).len() == n,
    decreases n,
{
    if n > 0 {
        lemma_le_bytes_len(v / 256, (n - 1) as nat);
    }
}

/// The first k bytes of an n-byte encoding encode the low digits; the rest
/// encode the value shifted down by 256^k.
pub proof fn lemma_le_bytes_split(v: int, k: nat, n: nat)
    requires
        v >= 0,
        k <= n,
    ensures
        le_bytes(v, n) == le_bytes(v, k) + le_bytes(v / p256(k), (n - k) as nat),
    decreases k,
{
    lemma_p256_pos(k);
    if k == 0 {
        assert(v / 1 == v);
        assert(le_bytes(v, n) =~= le_bytes(v, 0) + le_bytes(v / p256(0), n));
    } else {
        lemma_le_bytes_split(v / 256, (k - 1) as nat, (n - 1) as nat);
        lemma_p256_pos((k - 1) as nat);
        lemma_div_denominator(v, 256, p256((k - 1) as nat));
        assert(256 * p256((k - 1) as nat) == p256(k));
        assert((v / 256) / p256((k - 1) as nat) == v / p256(k));
        assert(le_bytes(v, n) =~= le_bytes(v, k) + le_bytes(v / p256(k), (n - k) as nat));
    }
}

/// Decoding the n-byte encoding of a value below 256^n gives the value back.
pub proof fn lemma_le_roundtrip(v: int, n: nat)
    requires
        0 <= v < p256(n),
    ensures
        le_val(le_bytes(v, n)) == v,
    decreases n,
{
    if n == 0 {
        assert(v == 0);
    } else {
        lemma_p256_pos((n - 1) as nat);
        assert(v / 256 < p256((n - 1) as nat)) by {
            lemma_fundamental_div_mod(v, 256);
            if v / 256 >= p256((n - 1) as nat) {
                assert(256 * (v / 256) >= 256 * p256((n - 1) as nat)) by (nonlinear_arith)
                    requires
                        v / 256 >= p256((n - 1) as nat),
                ;
            }
        }
        assert(v / 256 >= 0) by {
            lemma_fundamental_div_mod(v, 256);
            if v / 256 < 0 {
                assert(256 * (v / 256) <= -256) by (nonlinear_arith)
                    requires
                        v / 256 <= -1,
                ;
            }
        }
        lemma_le_roundtrip(v / 256, (n - 1) as nat);
        let b = le_bytes(v, n);
        assert(b.drop_first() =~= le_bytes(v / 256, (n - 1) as nat));
        assert(le_val(b) == v % 256 + 256 * (v / 256));
        lemma_fundamental_div_mod(v, 256);
    }
}

/// A little-endian byte sequence denotes a value in [0, 256^len).
pub proof fn lemma_le_val_bound(b: Seq<u8>)
    ensures
        0 <= le_val(b) < p256(b.len()),
    decreases b.len(),
{
    if b.len() > 0 {
        lemma_le_val_bound(b.drop_first());
        assert(p256(b.len()) == 256 * p256((b.len() - 1) as nat));
    }
}

pub proof fn lemma_raw_of_len(w: nat, values: Seq<u64>)
    ensures
        raw_of(w, values).len() == values.len() * w,
    decreases values.len(),
{
    if values.len() == 0 {
        assert(values.len() * w == 0) by (nonlinear_arith)
            requires
                values.len() == 0,
        ;
    } else {
        lemma_raw_of_len(w, values.drop_first());
        lemma_le_bytes_len(values[0] as int, w);
        assert(values.len() * w == (values.len() - 1) * w + w) by (nonlinear_arith);
    }
}

/// Appending one value appends its encoding.
pub proof fn lemma_raw_of_snoc(w: nat, values: Seq<u64>, v: u64)
    ensures
        raw_of(w, values.push(v)) == raw_of(w, values) + le_bytes(v as int, w),
    decreases values.len(),
{
    if values.len() == 0 {
        assert(values.push(v).drop_first() =~= Seq::<u64>::empty());
        assert(raw_of(w, values.push(v).drop_first()) == Seq::<u8>::empty());
        assert(values.push(v)[0] == v);
        assert(raw_of(w, values.push(v)) =~= raw_of(w, values) + le_bytes(v as int, w));
    } else {
        assert(values.push(v).drop_first() =~= values.drop_first().push(v));
        lemma_raw_of_snoc(w, values.drop_first(), v);
        assert(raw_of(w, values.push(v)) =~= raw_of(w, values) + le_bytes(v as int, w));
    }
}

/// Decoding a raw page body recovers exactly the values it was built from.
pub proof fn lemma_raw_roundtrip(w: nat, values: Seq<u64>)
    requires
        w >= 1,
        forall|i: int| 0 <= i < values.len() ==> values[i] < p256(w),
    ensures
        raw_decode(w, raw_of(w, values)) == values,
    decreases values.len(),
{
    lemma_raw_of_len(w, values);
    if values.len() == 0 {
    } else {
        let b = raw_of(w, values);
        let rest = values.drop_first();
        lemma_le_bytes_len(values[0] as int, w);
        lemma_raw_of_len(w, rest);
        assert(values.len() * w >= 1 * w) by (nonlinear_arith)
            requires
                values.len() >= 1,
                w >= 1,
        ;
        assert(b.take(w as int) =~= le_bytes(values[0] as int, w));
        assert(b.skip(w as int) =~= raw_of(w, rest));
        lemma_le_roundtrip(values[0] as int, w);
        assert(forall|i: int| 0 <= i < rest.len() ==> rest[i] < p256(w));
        lemma_raw_roundtrip(w, rest);
        assert(raw_decode(w, b) =~= values);
    }
}

/// raw_decode distributes over concatenation at value boundaries.
pub proof fn lemma_raw_decode_append(w: nat, a: Seq<u8>, b: Seq<u8>)
    requires
        w >= 1,
        (a.len() as int) % (w as int) == 0,
    ensures
        raw_decode(w, a + b) == raw_decode(w, a) + raw_decode(w, b),
    decreases a.len(),
{
    if a.len() == 0 {
        assert(a + b =~= b);
        assert(raw_decode(w, a + b) =~= raw_decode(w, a) + raw_decode(w, b));
    } else {
        if a.len() < w {
            lemma_small_mod(a.len(), w);
            assert(false);
        }
        let t = a.skip(w as int);
        assert((t.len() as int) % (w as int) == 0) by {
            assert(a.len() as int == ((a.len() as int) / (w as int)) * (w as int)) by {
                lemma_fundamental_div_mod(a.len() as int, w as int);
            }
            assert(t.len() as int == (((a.len() as int) / (w as int)) - 1) * (w as int)) by (nonlinear_arith)
                requires
                    t.len() == a.len() - w,
                    a.len() as int == ((a.len() as int) / (w as int)) * (w as int),
            ;
            lemma_mod_multiples_basic(((a.len() as int) / (w as int)) - 1, w as int);
        }
        lemma_raw_decode_append(w, t, b);
        assert((a + b).take(w as int) =~= a.take(w as int));
        assert((a + b).skip(w as int) =~= t + b);
        assert(raw_decode(w, a + b) =~= raw_decode(w, a) + raw_decode(w, b));
    }
}

/// One whole value decodes as one value.
pub proof fn lemma_raw_decode_single(w: nat, c: Seq<u8>)
    requires
        w >= 1,
        c.len() == w,
    ensures
        raw_decode(w, c) == seq![le_val(c) as u64],
{
    assert(c.take(w as int) =~= c);
    assert(c.skip(w as int) =~= Seq::<u8>::empty());
    assert(raw_decode(w, c.skip(w as int)) == Seq::<u64>::empty());
    assert(raw_decode(w, c) =~= seq![le_val(c) as u64]);
}

/// Appends the w little-endian bytes of v.
fn push_le(out: &mut Vec<u8>, v: u64, w: usize)
    requires
        w <= 8,
    ensures
        final(out)@ == old(out)@ + le_bytes(v as int, w as nat),
{
    let mut cur: u64 = v;
    let mut k: usize = 0;
    while k < w
        invariant
            k <= w <= 8,
            out@ == old(out)@ + le_bytes(v as int, k as nat),
            cur as int == (v as int) / p256(k as nat),
        decreases w - k,
    {
        proof {
            lemma_p256_pos(k as nat);
            lemma_le_bytes_split(v as int, k as nat, (k + 1) as nat);
            assert(le_bytes(((v as int) / p256(k as nat)) / 256, 0) == Seq::<u8>::empty());
            assert(le_bytes((v as int) / p256(k as nat), 1) =~= seq![
                ((((v as int) / p256(k as nat)) % 256) as u8),
            ]);
            assert(le_bytes(v as int, (k + 1) as nat) =~= le_bytes(v as int, k as nat) + seq![
                (((v as int) / p256(k as nat) % 256) as u8),
            ]);
            lemma_div_denominator(v as int, p256(k as nat), 256);
            assert(p256(k as nat) * 256 == 256 * p256(k as nat)) by (nonlinear_arith);
            assert(((v as int) / p256(k as nat)) / 256 == (v as int) / p256((k + 1) as nat));
        }
        let b = (cur % 256) as u8;
        out.push(b);
        proof {
            assert(out@ =~= old(out)@ + le_bytes(v as int, (k + 1) as nat));
        }
        cur = cur / 256;
        k = k + 1;
    }
    proof {
        assert(out@ =~= old(out)@ + le_bytes(v as int, w as nat));
    }
}

/// Reads the value of the w little-endian bytes at `pos`.
fn read_le(b: &Vec<u8>, pos: usize, w: usize) -> (r: u64)
    requires
        pos + w <= b@.len(),
        w <= 8,
    ensures
        r as int == le_val(b@.subrange(pos as int, pos as int + w as int)),
{
    let mut acc: u64 = 0;
    let mut k: usize = w;
    let n = b.len();
    proof {
        assert(b@.subrange(pos + w as int, pos + w as int) =~= Seq::<u8>::empty());
        lemma_p256_vals();
        lemma_p256_pos(0);
    }
    while k > 0
        invariant
            k <= w <= 8,
            pos + w <= n,
            n == b@.len(),
            acc as int == le_val(b@.subrange(pos + k as int, pos + w as int)),
            acc < p256((w - k) as nat),
        decreases k,
    {
        k = k - 1;
        let byte = b[pos + k];
        proof {
            let tail = b@.subrange(pos + (k + 1) as int, pos + w as int);
            let whole = b@.subrange(pos + k as int, pos + w as int);
            assert(whole.drop_first() =~= tail);
            assert(whole[0] == b@[pos + k as int]);
            assert(p256((w - k) as nat) == 256 * p256((w - k - 1) as nat));
            lemma_p256_vals();
            assert(p256((w - k) as nat) <= p256(8)) by {
                lemma_p256_mono((w - k) as nat, 8);
            }
        }
        acc = (byte as u64) + 256 * acc;
    }
    acc
}

pub proof fn lemma_p256_mono(a: nat, b: nat)
    requires
        a <= b,
    ensures
        p256(a) <= p256(b),
    decreases b,
{
    lemma_p256_pos(a);
    if a < b {
        lemma_p256_mono(a, (b - 1) as nat);
    }
}

/// The raw (uncompressed) body of a page holding this leaf's values.
fn encode_values(a: &LeafArray) -> (r: Vec<u8>)
    ensures
        r@ == raw_of(width_of(a@.ptype) as nat, a@.values),
{
    let mut out: Vec<u8> = Vec::new();
    match a {
        LeafArray::UInt32(v) => {
            let ghost values = a@.values;
            let mut i: usize = 0;
            while i < v.len()
                invariant
                    i <= v@.len(),
                    values == v@.map(|j: int, x: u32| x as u64),
                    out@ == raw_of(4, values.take(i as int)),
                decreases v@.len() - i,
            {
                proof {
                    lemma_raw_of_snoc(4, values.take(i as int), (v@[i as int] as u64));
                    assert(values.take(i as int + 1) =~= values.take(i as int).push(
                        values[i as int],
                    ));
                }
                push_le(&mut out, v[i] as u64, 4);
                i = i + 1;
            }
            proof {
                assert(values.take(v@.len() as int) =~= values);
            }
        },
        LeafArray::UInt64(v) => {
            let ghost values = a@.values;
            let mut i: usize = 0;
            while i < v.len()
                invariant
                    i <= v@.len(),
                    values == v@,
                    out@ == raw_of(8, values.take(i as int)),
                decreases v@.len() - i,
            {
                proof {
                    lemma_raw_of_snoc(8, values.take(i as int), v@[i as int]);
                    assert(values.take(i as int + 1) =~= values.take(i as int).push(
                        values[i as int],
                    ));
                }
                push_le(&mut out, v[i], 8);
                i = i + 1;
            }
            proof {
                assert(values.take(v@.len() as int) =~= values);
            }
        },
    }
    out
}

/// Bytes that `lz4_flex::compress_prepend_size` returns for this input; the
/// result depends on the input bytes alone.
pub uninterp spec fn lz4_of(b: Seq<u8>) -> Seq<u8>;

/// What `lz4_flex::decompress_size_prepended` recovers from these bytes:
/// `Some` payload exactly when the crate decompresses them, `None` when it
/// reports an error. The result depends on the input bytes alone.
pub uninterp spec fn unlz4_of(b: Seq<u8>) -> Option<Seq<u8>>;

/// Relies on `lz4_flex::compress_prepend_size`: deterministic LZ4 block
/// compression that prepends the payload length as a little-endian u32 (hence
/// at least 4 bytes of output), documented to round-trip through
/// `decompress_size_prepended`. The length cap keeps the prepended u32 exact
/// and the crate's internal size arithmetic free of overflow.
#[verifier::external_body]
fn lz4_compress(b: &Vec<u8>) -> (r: Vec<u8>)
    requires
        b@.len() <= MAX_COMPRESS_INPUT,
    ensures
        r@ == lz4_of(b@),
        unlz4_of(r@) == Some(b@),
        r@.len() >= 4,
{
    lz4_flex::compress_prepend_size(b.as_slice())
}

#[verifier::external_type_specification]
#[verifier::external_body]
pub struct ExDecompressError(lz4_flex::block::DecompressError);

/// Relies on `lz4_flex::decompress_size_prepended`: deterministic; returns
/// the decompressed payload, or an error for input it cannot decompress.
#[verifier::external_body]
fn lz4_decompress(b: &Vec<u8>, len: usize) -> (r: Result<
    Vec<u8>,
    lz4_flex::block::DecompressError,
>)
    requires
        len <= b@.len(),
    ensures
        match r {
            Ok(v) => unlz4_of(b@.subrange(0, len as int)) == Some(v@),
            Err(_) => unlz4_of(b@.subrange(0, len as int)) is None,
        },
{
    lz4_flex::decompress_size_prepended(&b.as_slice()[..len])
}

/// The on-disk body of a page holding this window, under this codec.
pub open spec fn page_encoding(m: LeafModel, c: Compression) -> Seq<u8> {
    match c {
        Compression::Uncompressed => raw_of(width_of(m.ptype) as nat, m.values),
        Compression::Lz4 => lz4_of(raw_of(width_of(m.ptype) as nat, m.values)),
    }
}

/// What a raw page body decodes to, if its length matches the recorded value
/// count; `None` marks corruption.
pub open spec fn raw_page_decode(b: Seq<u8>, num_values: int, t: PhysicalType) -> Option<
    LeafModel,
> {
    if num_values >= 0 && b.len() == num_values * width_of(t) {
        Some(LeafModel { ptype: t, values: raw_decode(width_of(t) as nat, b) })
    } else {
        None
    }
}

/// What a page body decodes to under this codec; `None` marks corruption.
pub open spec fn page_decode(b: Seq<u8>, num_values: int, t: PhysicalType, c: Compression) -> Option<
    LeafModel,
> {
    match c {
        Compression::Uncompressed => raw_page_decode(b, num_values, t),
        Compression::Lz4 => match unlz4_of(b) {
            Some(payload) => raw_page_decode(payload, num_values, t),
            None => None,
        },
    }
}

/// Encodes one window of a leaf as a page body. Decoding the body with the
/// window's value count and type recovers the window exactly.
pub(crate) fn encode_page(a: &LeafArray, c: Compression) -> (r: Vec<u8>)
    requires
        c == Compression::Lz4 ==> a@.values.len() * width_of(a@.ptype) <= MAX_COMPRESS_INPUT,
    ensures
        r@ == page_encoding(a@, c),
        page_decode(r@, a@.values.len() as int, a@.ptype, c) == Some(a@),
        a@.values.len() > 0 ==> r@.len() > 0,
{
    let ghost m = a@;
    let ghost w = width_of(m.ptype) as nat;
    let raw = encode_values(a);
    proof {
        lemma_raw_of_len(w, m.values);
        if m.values.len() > 0 {
            assert(m.values.len() * w >= 1 * w) by (nonlinear_arith)
                requires
                    m.values.len() >= 1,
                    w >= 1,
            ;
        }
        lemma_leaf_array_wf(a);
        lemma_type_bound_p256(m.ptype);
        lemma_raw_roundtrip(w, m.values);
        assert(raw_page_decode(raw@, m.values.len() as int, m.ptype) == Some(m)) by {
            assert(LeafModel { ptype: m.ptype, values: raw_decode(w, raw@) } =~= m);
        }
    }
    match c {
        Compression::Uncompressed => raw,
        Compression::Lz4 => {
            let out = lz4_compress(&raw);
            out
        },
    }
}

/// Decodes a raw page body held in `b[0 .. len]`.
fn decode_raw(b: &Vec<u8>, len: usize, num_values: u64, t: PhysicalType) -> (r: Result<
    LeafArray,
    ReadError,
>)
    requires
        len <= b@.len(),
    ensures
        match r {
            Ok(a) => raw_page_decode(b@.subrange(0, len as int), num_values as int, t) == Some(
                a@,
            ),
            Err(e) => e == ReadError::Decode && raw_page_decode(
                b@.subrange(0, len as int),
                num_values as int,
                t,
            ) is None,
        },
{
    let ghost raw = b@.subrange(0, len as int);
    let w = width(t);
    let len64 = len as u64;
    let w64 = w as u64;
    if len64 % w64 != 0 {
        proof {
            if raw.len() == (num_values as int) * width_of(t) {
                lemma_mod_multiples_basic(num_values as int, w as int);
            }
        }
        return Err(ReadError::Decode);
    }
    if len64 / w64 != num_values {
        proof {
            if raw.len() == (num_values as int) * width_of(t) {
                lemma_fundamental_div_mod_converse(len as int, w as int, num_values as int, 0);
            }
        }
        return Err(ReadError::Decode);
    }
    let count = len / w;
    proof {
        lemma_fundamental_div_mod(len as int, w as int);
        assert(len as int == count * w) by (nonlinear_arith)
            requires
                len as int == (w as int) * (count as int) + 0,
        ;
        assert(raw.len() == (num_values as int) * width_of(t)) by (nonlinear_arith)
            requires
                raw.len() == count * w,
                count == num_values,
                w == width_of(t),
        ;
    }
    match t {
        PhysicalType::UInt32 => {
            let mut out: Vec<u32> = Vec::new();
            let mut k: usize = 0;
            while k < count
                invariant
                    k <= count,
                    count * w == len <= b@.len(),
                    w == 4,
                    raw == b@.subrange(0, len as int),
                    out@.map(|j: int, x: u32| x as u64) == raw_decode(4, raw.take(k as int * 4)),
                    out@.len() == k,
                decreases count - k,
            {
                proof {
                    decode_step_bounds(k as int, count as int, w as int, len as int);
                }
                let v = read_le(b, k * w, w);
                proof {
                    decode_step_glue(raw, b@, k as int, w as nat, len as int, v as int);
                    lemma_le_val_bound(b@.subrange(k as int * 4, k as int * 4 + 4));
                    lemma_p256_vals();
                    assert((v as u32) as u64 == v);
                    let f = |j: int, x: u32| x as u64;
                    assert(out@.push(v as u32).map(f) =~= out@.map(f).push(v));
                }
                out.push(v as u32);
                k = k + 1;
            }
            proof {
                assert(raw.take(count as int * 4) =~= raw);
            }
            let a = LeafArray::UInt32(out);
            proof {
                assert(raw_page_decode(raw, num_values as int, t) == Some(a@)) by {
                    assert(a@ =~= LeafModel { ptype: t, values: raw_decode(4, raw) });
                }
            }
            Ok(a)
        },
        PhysicalType::UInt64 => {
            let mut out: Vec<u64> = Vec::new();
            let mut k: usize = 0;
            while k < count
                invariant
                    k <= count,
                    count * w == len <= b@.len(),
                    w == 8,
                    raw == b@.subrange(0, len as int),
                    out@ == raw_decode(8, raw.take(k as int * 8)),
                    out@.len() == k,
                decreases count - k,
            {
                proof {
                    decode_step_bounds(k as int, count as int, w as int, len as int);
                }
                let v = read_le(b, k * w, w);
                proof {
                    decode_step_glue(raw, b@, k as int, w as nat, len as int, v as int);
                }
                out.push(v);
                k = k + 1;
            }
            proof {
                assert(raw.take(count as int * 8) =~= raw);
            }
            let a = LeafArray::UInt64(out);
            proof {
                assert(raw_page_decode(raw, num_values as int, t) == Some(a@)) by {
                    assert(a@ =~= LeafModel { ptype: t, values: raw_decode(8, raw) });
                }
            }
            Ok(a)
        },
    }
}

/// Index arithmetic for one decode step: the k-th value's bytes lie inside
/// the page body.
proof fn decode_step_bounds(k: int, count: int, w: int, len: int)
    requires
        0 <= k < count,
        w >= 1,
        count * w == len,
    ensures
        0 <= k * w,
        k * w + w <= len,
        (k + 1) * w == k * w + w,
{
    assert(0 <= k * w && (k + 1) * w <= count * w && (k + 1) * w == k * w + w)
        by (nonlinear_arith)
        requires
            0 <= k < count,
            w >= 1,
    ;
}

/// One decode step extends the decoded prefix by the value just read.
proof fn decode_step_glue(raw: Seq<u8>, b: Seq<u8>, k: int, w: nat, len: int, v: int)
    requires
        w >= 1,
        0 <= k,
        k * w + w <= len <= b.len(),
        raw == b.subrange(0, len),
        v == le_val(b.subrange(k * w, k * w + w)),
    ensures
        raw_decode(w, raw.take(k * w + w)) == raw_decode(w, raw.take(k * w)).push(v as u64),
        raw.take(k * w + w) == raw.take((k + 1) as int * w),
{
    let chunk = raw.subrange(k * w, k * w + w);
    assert(chunk =~= b.subrange(k * w, k * w + w));
    assert(raw.take(k * w + w) =~= raw.take(k * w) + chunk);
    assert(((raw.take(k * w)).len() as int) % (w as int) == 0) by {
        lemma_mod_multiples_basic(k, w as int);
    }
    lemma_raw_decode_append(w, raw.take(k * w), chunk);
    lemma_raw_decode_single(w, chunk);
    assert(raw_decode(w, raw.take(k * w)) + seq![v as u64] =~= raw_decode(
        w,
        raw.take(k * w),
    ).push(v as u64));
    assert((k + 1) as int * w == k * w + w) by (nonlinear_arith);
    assert(raw.take(k * w + w) =~= raw.take((k + 1) as int * w));
}

/// Decodes the page body held in `b[0 .. len]` under this codec, against the
/// recorded value count and physical type.
pub(crate) fn decode_page(b: &Vec<u8>, len: usize, num_values: u64, t: PhysicalType, c: Compression) -> (r:
    Result<LeafArray, ReadError>)
    requires
        len <= b@.len(),
    ensures
        match r {
            Ok(a) => page_decode(b@.subrange(0, len as int), num_values as int, t, c) == Some(a@),
            Err(e) => e == ReadError::Decode && page_decode(
                b@.subrange(0, len as int),
                num_values as int,
                t,
                c,
            ) is None,
        },
{
    match c {
        Compression::Uncompressed => decode_raw(b, len, num_values, t),
        Compression::Lz4 => match lz4_decompress(b, len) {
            Ok(payload) => {
                let plen = payload.len();
                let r = decode_raw(&payload, plen, num_values, t);
                proof {
                    assert(payload@.subrange(0, plen as int) =~= payload@);
                }
                r
            },
            Err(_) => Err(ReadError::Decode),
        },
    }
}

} // verus!
