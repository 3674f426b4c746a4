//! Leaf arrays: the primitive columns the paging engine works on. A leaf is
//! a sequence of fixed-width values of one physical type; nested logical
//! columns are flattened into leaves by an external collaborator before they
//! reach this crate.

use vstd::prelude::*;

verus! {

/// The closed set of physical value types the codec dispatches over.
#[derive(Clone, Copy, Debug, PartialEq, Eq, Structural)]
pub enum PhysicalType {
    UInt32,
    UInt64,
}

/// Encoded byte width of one value of the type.
pub open spec fn width_of(t: PhysicalType) -> int {
    match t {
        PhysicalType::UInt32 => 4,
        PhysicalType::UInt64 => 8,
    }
}

/// Exclusive upper bound of a value of the type, widened to u64.
pub open spec fn type_bound(t: PhysicalType) -> int {
    match t {
        PhysicalType::UInt32 => 0x1_0000_0000,
        PhysicalType::UInt64 => 0x1_0000_0000_0000_0000,
    }
}

pub fn width(t: PhysicalType) -> (r: usize)
    ensures
        r as int == width_of(t),
{
    match t {
        PhysicalType::UInt32 => 4,
        PhysicalType::UInt64 => 8,
    }
}

/// Mathematical model of one leaf array: its physical type and its logical
/// values, each widened to u64.
#[verifier::ext_equal]
pub ghost struct LeafModel {
    pub ptype: PhysicalType,
    pub values: Seq<u64>,
}

/// Every value of the model lies below its type's bound.
pub open spec fn leaf_wf(m: LeafModel) -> bool {
    forall|i: int| 0 <= i < m.values.len() ==> m.values[i] < type_bound(m.ptype)
}

/// One leaf column's values, tagged by physical type.
#[derive(Clone, Debug, PartialEq, Eq)]
pub enum LeafArray {
    UInt32(Vec<u32>),
    UInt64(Vec<u64>),
}

impl View for LeafArray {
    type V = LeafModel;

    open spec fn view(&self) -> LeafModel {
        match self {
            LeafArray::UInt32(v) => LeafModel {
                ptype: PhysicalType::UInt32,
                values: v@.map(|i: int, x: u32| x as u64),
            },
            LeafArray::UInt64(v) => LeafModel { ptype: PhysicalType::UInt64, values: v@ },
        }
    }
}

pub proof fn lemma_leaf_array_wf(a: &LeafArray)
    ensures
        leaf_wf(a@),
{
}

impl LeafArray {
    /// Number of logical values in the leaf.
    pub fn len(&self) -> (r: usize)
        ensures
            r == self@.values.len(),
    {
        match self {
            LeafArray::UInt32(v) => v.len(),
            LeafArray::UInt64(v) => v.len(),
        }
    }

    pub fn physical_type(&self) -> (r: PhysicalType)
        ensures
            r == self@.ptype,
    {
        match self {
            LeafArray::UInt32(_) => PhysicalType::UInt32,
            LeafArray::UInt64(_) => PhysicalType::UInt64,
        }
    }

    /// The sub-leaf holding values `[offset, offset + len)`, in order.
    pub fn slice(&self, offset: usize, len: usize) -> (r: LeafArray)
        requires
            offset + len <= self@.values.len(),
        ensures
            r@.ptype == self@.ptype,
            r@.values == self@.values.subrange(offset as int, offset as int + len as int),
    {
        match self {
            LeafArray::UInt32(v) => {
                let sub = copy_range(v, offset, len);
                proof {
                    assert(sub@.map(|i: int, x: u32| x as u64) =~= self@.values.subrange(
                        offset as int,
                        offset as int + len as int,
                    ));
                }
                LeafArray::UInt32(sub)
            },
            LeafArray::UInt64(v) => LeafArray::UInt64(copy_range(v, offset, len)),
        }
    }
}

/// Copies `v[offset .. offset + len]` into a fresh vector.
fn copy_range<T: Copy>(v: &Vec<T>, offset: usize, len: usize) -> (r: Vec<T>)
    requires
        offset + len <= v@.len(),
    ensures
        r@ == v@.subrange(offset as int, offset as int + len as int),
{
    let mut out: Vec<T> = Vec::new();
    let mut k: usize = 0;
    let n = v.len();
    while k < len
        invariant
            k <= len,
            offset + len <= n <= usize::MAX,
            n == v@.len(),
            out@ == v@.subrange(offset as int, offset as int + k as int),
        decreases len - k,
    {
        out.push(v[offset + k]);
        proof {
            assert(out@ =~= v@.subrange(offset as int, offset as int + (k + 1) as int));
        }
        k = k + 1;
    }
    out
}

} // verus!
