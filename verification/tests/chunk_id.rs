use chunked_idx_table::chunk_id::{
    ChunkId, MARK_BIT, MAX_CHUNKS, MAX_CHUNK_ROWS, NULL_RAW, ROW_BITS,
};

#[test]
fn encode_packs_chunk_above_row() {
    assert_eq!(ChunkId::encode(0, 0).into_inner(), 0);
    assert_eq!(ChunkId::encode(0, 1).into_inner(), 1);
    assert_eq!(ChunkId::encode(1, 0).into_inner(), 0x1_0000_0000);
    assert_eq!(ChunkId::encode(3, 7).into_inner(), 0x3_0000_0007);
    assert_eq!(ChunkId::encode(5, 9).into_inner(), (5u64 << ROW_BITS) | 9);
}

#[test]
fn encode_at_the_ceilings_keeps_bit_63_clear() {
    let top = ChunkId::encode(MAX_CHUNKS - 1, u32::MAX);
    assert_eq!(top.into_inner(), 0x7fff_ffff_ffff_ffff);
    assert!(!top.is_marked());
    assert!(!top.is_null());
}

#[test]
fn constants_have_their_documented_values() {
    assert_eq!(ROW_BITS, 32);
    assert_eq!(MAX_CHUNK_ROWS, 1usize << 31);
    assert_eq!(MAX_CHUNKS, 1u32 << 31);
    assert_eq!(MARK_BIT, 1u64 << 63);
    assert_eq!(NULL_RAW, !0u64);
}

#[test]
fn null_is_all_ones() {
    assert_eq!(ChunkId::null().into_inner(), u64::MAX);
    assert!(ChunkId::null().is_null());
    assert!(ChunkId::null().is_marked());
    assert!(!ChunkId::encode(0, 0).is_null());
}

#[test]
fn extract_reads_back_what_encode_packed() {
    assert_eq!(ChunkId::encode(213_908, 813_457).extract(), (213_908, 813_457));
    assert_eq!(ChunkId::encode(0, u32::MAX).extract(), (0, u32::MAX));
    assert_eq!(ChunkId::encode(MAX_CHUNKS - 1, 0).extract(), (MAX_CHUNKS - 1, 0));
}

#[test]
fn extract_ignores_the_mark() {
    let id = ChunkId::encode(12, 34).set_mark();
    assert_eq!(id.extract(), (12, 34));
}

#[test]
fn set_mark_sets_bit_63_only() {
    let id = ChunkId::encode(2, 5);
    let marked = id.set_mark();
    assert!(marked.is_marked());
    assert_eq!(marked.into_inner(), 0x8000_0002_0000_0005);
    assert_eq!(marked.set_mark(), marked);
}

#[test]
fn strip_mark_clears_bit_63_only() {
    let id = ChunkId::encode(2, 5);
    assert_eq!(id.set_mark().strip_mark(), id);
    assert_eq!(id.strip_mark(), id);
    assert_eq!(ChunkId::null().strip_mark().into_inner(), 0x7fff_ffff_ffff_ffff);
    assert!(!ChunkId::from_inner(u64::MAX).strip_mark().is_marked());
}

#[test]
fn is_marked_reads_bit_63() {
    assert!(!ChunkId::from_inner(0).is_marked());
    assert!(!ChunkId::from_inner(0x7fff_ffff_ffff_ffff).is_marked());
    assert!(ChunkId::from_inner(0x8000_0000_0000_0000).is_marked());
}

#[test]
fn from_inner_and_into_inner_are_inverse() {
    for raw in [0u64, 1, 0x1_0000_0000, 0x8000_0000_0000_0000, u64::MAX] {
        assert_eq!(ChunkId::from_inner(raw).into_inner(), raw);
    }
}

#[test]
fn distinct_rows_encode_differently() {
    assert_ne!(ChunkId::encode(0, 1), ChunkId::encode(1, 0));
    assert_ne!(ChunkId::encode(1, 1), ChunkId::encode(1, 2));
    assert_eq!(ChunkId::encode(4, 4), ChunkId::encode(4, 4));
}
