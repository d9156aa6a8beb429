//! Buckets: `polars_utils`' small vector, which keeps a single element inline
//! and allocates from the second element on.
//!
//! Nothing in this file is proved. Verus sees a bucket as an opaque value and
//! believes the contracts below, each of which restates what the vector's
//! source shows. Like the contracts that vstd gives to `Vec`, they are silent
//! on memory: a bucket that cannot get the memory it asks for stops the
//! program.

use polars_utils::idx_vec::UnitVec;
use vstd::prelude::*;

verus! {

#[verifier::external_type_specification]
#[verifier::external_body]
#[verifier::reject_recursive_types(T)]
pub struct ExUnitVec<T>(UnitVec<T>);

/// What a bucket holds: its cells, first pushed first.
pub uninterp spec fn bucket_cells(b: UnitVec<u64>) -> Seq<u64>;

/// A bucket with fewer cells than this takes one more. The vector counts in
/// 32 bits and doubles its capacity when it is full; from this length on the
/// doubling overflows.
pub const MAX_BUCKET_CELLS: usize = 0x8000_0000;

/// `UnitVec::new`: a bucket without cells. The vector keeps its first
/// element where its pointer is, and stops the program where the element is
/// wider than a pointer: hence 64-bit pointers.
#[verifier::external_body]
pub(crate) fn bucket_new() -> (b: UnitVec<u64>)
    requires
        usize::BITS == 64,
    ensures
        bucket_cells(b) == Seq::<u64>::empty(),
{
    UnitVec::new()
}

/// `UnitVec::push`: one more cell at the end.
#[verifier::external_body]
pub(crate) fn bucket_push(b: &mut UnitVec<u64>, cell: u64)
    requires
        bucket_cells(*old(b)).len() < MAX_BUCKET_CELLS,
    ensures
        bucket_cells(*final(b)) == bucket_cells(*old(b)).push(cell),
{
    b.push(cell)
}

/// `UnitVec::as_slice`: the cells as a slice.
#[verifier::external_body]
pub(crate) fn bucket_as_slice(b: &UnitVec<u64>) -> (cells: &[u64])
    ensures
        cells@ == bucket_cells(*b),
{
    b.as_slice()
}

/// `UnitVec::as_mut_slice`: the cells as a slice to write through. The
/// bucket ends up holding what the slice ends up holding.
#[verifier::external_body]
pub(crate) fn bucket_as_mut_slice(b: &mut UnitVec<u64>) -> (cells: &mut [u64])
    ensures
        cells@ == bucket_cells(*old(b)),
        final(cells)@ == bucket_cells(*final(b)),
{
    b.as_mut_slice()
}

} // verus!
