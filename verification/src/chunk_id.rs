//! The packed 64-bit row locator: chunk ordinal, row within the chunk and a
//! mark flag.
//!
//! Layout, most significant bit first: bit 63 is the mark flag, bits 62..32
//! hold the chunk ordinal and bits 31..0 the row within that chunk. The value
//! with every bit set is the null locator and stands for "no inner row".

use vstd::prelude::*;

verus! {

/// Number of low bits that hold the row within its chunk.
pub const ROW_BITS: u32 = 32;

/// Exclusive upper bound on the number of rows of one chunk.
pub const MAX_CHUNK_ROWS: usize = 0x8000_0000;

/// Exclusive upper bound on chunk ordinals: one more would reach the mark bit.
pub const MAX_CHUNKS: u32 = 0x8000_0000;

/// The mark flag, bit 63.
pub const MARK_BIT: u64 = 0x8000_0000_0000_0000;

/// The raw value of the null locator.
pub const NULL_RAW: u64 = 0xffff_ffff_ffff_ffff;

/// `(chunk << ROW_BITS) | row`.
pub open spec fn spec_encode(chunk: u32, row: u32) -> u64 {
    ((chunk as u64) << 32) | (row as u64)
}

/// `raw` with bit 63 cleared.
pub open spec fn spec_strip_mark(raw: u64) -> u64 {
    raw & 0x7fff_ffff_ffff_ffff
}

/// `raw` with bit 63 set.
pub open spec fn spec_set_mark(raw: u64) -> u64 {
    raw | 0x8000_0000_0000_0000
}

/// Whether bit 63 of `raw` is set.
pub open spec fn spec_is_marked(raw: u64) -> bool {
    (raw >> 63) == 1
}

/// The chunk ordinal held in bits 62..32.
pub open spec fn spec_chunk(raw: u64) -> u32 {
    ((raw >> 32) & 0x7fff_ffff) as u32
}

/// The row held in bits 31..0.
pub open spec fn spec_row(raw: u64) -> u32 {
    (raw & 0xffff_ffff) as u32
}

/// Encoding keeps bit 63 clear below the chunk ceiling, is the sum
/// `chunk * 2^32 + row`, and can be read back.
pub proof fn lemma_encode(chunk: u32, row: u32)
    requires
        chunk < MAX_CHUNKS,
    ensures
        !spec_is_marked(spec_encode(chunk, row)),
        spec_encode(chunk, row) != NULL_RAW,
        spec_encode(chunk, row) == chunk * 0x1_0000_0000 + row,
        spec_chunk(spec_encode(chunk, row)) == chunk,
        spec_row(spec_encode(chunk, row)) == row,
        spec_strip_mark(spec_encode(chunk, row)) == spec_encode(chunk, row),
{
    assert(chunk < 0x8000_0000u32 ==> {
        let e = ((chunk as u64) << 32) | (row as u64);
        &&& (e >> 63) != 1
        &&& e != 0xffff_ffff_ffff_ffffu64
        &&& e == chunk * 0x1_0000_0000 + row
        &&& ((e >> 32) & 0x7fff_ffff) as u32 == chunk
        &&& (e & 0xffff_ffff) as u32 == row
        &&& e & 0x7fff_ffff_ffff_ffff == e
    }) by (bit_vector);
}

/// Stripping clears the mark, never yields the null locator, keeps chunk and
/// row, and is the identity on unmarked values.
pub proof fn lemma_strip_mark(raw: u64)
    ensures
        !spec_is_marked(spec_strip_mark(raw)),
        spec_strip_mark(raw) != NULL_RAW,
        spec_strip_mark(spec_strip_mark(raw)) == spec_strip_mark(raw),
        spec_chunk(spec_strip_mark(raw)) == spec_chunk(raw),
        spec_row(spec_strip_mark(raw)) == spec_row(raw),
        !spec_is_marked(raw) ==> spec_strip_mark(raw) == raw,
{
    assert({
        let s = raw & 0x7fff_ffff_ffff_ffffu64;
        &&& (s >> 63) != 1
        &&& s != 0xffff_ffff_ffff_ffffu64
        &&& s & 0x7fff_ffff_ffff_ffff == s
        &&& ((s >> 32) & 0x7fff_ffff) as u32 == ((raw >> 32) & 0x7fff_ffff) as u32
        &&& (s & 0xffff_ffff) as u32 == (raw & 0xffff_ffff) as u32
        &&& ((raw >> 63) != 1 ==> s == raw)
    }) by (bit_vector);
}

/// Setting the mark touches bit 63 only and is idempotent.
pub proof fn lemma_set_mark(raw: u64)
    ensures
        spec_is_marked(spec_set_mark(raw)),
        spec_strip_mark(spec_set_mark(raw)) == spec_strip_mark(raw),
        spec_set_mark(spec_set_mark(raw)) == spec_set_mark(raw),
        spec_is_marked(raw) ==> spec_set_mark(raw) == raw,
        spec_chunk(spec_set_mark(raw)) == spec_chunk(raw),
        spec_row(spec_set_mark(raw)) == spec_row(raw),
{
    assert({
        let m = raw | 0x8000_0000_0000_0000u64;
        &&& (m >> 63) == 1
        &&& m & 0x7fff_ffff_ffff_ffff == raw & 0x7fff_ffff_ffff_ffff
        &&& m | 0x8000_0000_0000_0000 == m
        &&& ((raw >> 63) == 1 ==> m == raw)
        &&& ((m >> 32) & 0x7fff_ffff) as u32 == ((raw >> 32) & 0x7fff_ffff) as u32
        &&& (m & 0xffff_ffff) as u32 == (raw & 0xffff_ffff) as u32
    }) by (bit_vector);
}

/// A packed row locator.
#[derive(Clone, Copy, Debug, PartialEq, Eq, Structural)]
pub struct ChunkId {
    pub inner: u64,
}

impl View for ChunkId {
    type V = u64;

    open spec fn view(&self) -> u64 {
        self.inner
    }
}

/// The raw values of a sequence of locators.
pub open spec fn raws(ids: Seq<ChunkId>) -> Seq<u64> {
    ids.map_values(|c: ChunkId| c@)
}

impl ChunkId {
    /// The null locator: every bit set.
    pub fn null() -> (r: ChunkId)
        ensures
            r@ == NULL_RAW,
    {
        ChunkId { inner: NULL_RAW }
    }

    /// Whether this is the null locator.
    pub fn is_null(&self) -> (r: bool)
        ensures
            r == (self@ == NULL_RAW),
    {
        self.inner == NULL_RAW
    }

    /// Packs a chunk ordinal and a row into an unmarked locator.
    pub fn encode(chunk: u32, row: u32) -> (r: ChunkId)
        requires
            chunk < MAX_CHUNKS,
        ensures
            r@ == spec_encode(chunk, row),
            r@ == chunk * 0x1_0000_0000 + row,
            !spec_is_marked(r@),
            r@ != NULL_RAW,
    {
        proof {
            lemma_encode(chunk, row);
        }
        ChunkId { inner: ((chunk as u64) << 32) | (row as u64) }
    }

    /// Reads back the chunk ordinal and the row, whatever the mark.
    pub fn extract(self) -> (r: (u32, u32))
        ensures
            r.0 == spec_chunk(self@),
            r.1 == spec_row(self@),
    {
        let raw: u64 = self.inner;
        let chunk: u64 = (raw >> 32) & 0x7fff_ffff;
        let row: u64 = raw & 0xffff_ffff;
        assert(((raw >> 32) & 0x7fff_ffff) <= 0x7fff_ffff) by (bit_vector);
        assert((raw & 0xffff_ffff) <= 0xffff_ffff) by (bit_vector);
        (chunk as u32, row as u32)
    }

    /// Wraps a raw 64-bit value.
    pub fn from_inner(raw: u64) -> (r: ChunkId)
        ensures
            r@ == raw,
    {
        ChunkId { inner: raw }
    }

    /// The raw 64-bit value.
    pub fn into_inner(self) -> (r: u64)
        ensures
            r == self@,
    {
        self.inner
    }

    /// This locator with bit 63 cleared.
    pub fn strip_mark(self) -> (r: ChunkId)
        ensures
            r@ == spec_strip_mark(self@),
            !spec_is_marked(r@),
            r@ != NULL_RAW,
    {
        proof {
            lemma_strip_mark(self.inner);
        }
        ChunkId { inner: self.inner & 0x7fff_ffff_ffff_ffff }
    }

    /// This locator with bit 63 set.
    pub fn set_mark(self) -> (r: ChunkId)
        ensures
            r@ == spec_set_mark(self@),
            spec_is_marked(r@),
            spec_strip_mark(r@) == spec_strip_mark(self@),
    {
        proof {
            lemma_set_mark(self.inner);
        }
        ChunkId { inner: self.inner | 0x8000_0000_0000_0000 }
    }

    /// Whether bit 63 is set.
    pub fn is_marked(self) -> (r: bool)
        ensures
            r == spec_is_marked(self@),
    {
        (self.inner >> 63) == 1
    }
}

} // verus!
