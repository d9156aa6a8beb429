use chunked_idx_table::chunk_id::ChunkId;
use chunked_idx_table::hash_keys::{HashKeys, RowEncodedKeys};
use chunked_idx_table::table::RowEncodedChunkedIdxTable;

/// FNV-1a, as a stand-in for the row encoder's hash.
fn h(key: &[u8]) -> u64 {
    let mut x: u64 = 0xcbf2_9ce4_8422_2325;
    for b in key {
        x ^= *b as u64;
        x = x.wrapping_mul(0x0000_0100_0000_01b3);
    }
    x
}

fn batch(keys: &[Option<&[u8]>]) -> HashKeys {
    let hashes: Vec<u64> = keys.iter().map(|k| k.map(h).unwrap_or(0)).collect();
    let keys: Vec<Option<Vec<u8>>> = keys.iter().map(|k| k.map(|b| b.to_vec())).collect();
    HashKeys::RowEncoded(RowEncodedKeys::new(hashes, keys).unwrap())
}

fn build(chunks: &[&[Option<&[u8]>]]) -> RowEncodedChunkedIdxTable {
    let mut table = RowEncodedChunkedIdxTable::new();
    for chunk in chunks {
        table.insert_key_chunk(batch(chunk));
    }
    table
}

fn e(chunk: u32, row: u32) -> ChunkId {
    ChunkId::encode(chunk, row)
}

fn unmarked(table: &RowEncodedChunkedIdxTable) -> Vec<ChunkId> {
    let mut out = Vec::new();
    table.unmarked_keys(&mut out);
    out
}

#[test]
fn single_match() {
    let mut table = build(&[&[Some(b"a"), Some(b"b")]]);
    let mut tm = Vec::new();
    let mut pm = Vec::new();
    let r = table.probe(&batch(&[Some(b"b")]), &mut tm, &mut pm, false, false, u32::MAX);
    assert_eq!(tm, vec![e(0, 1)]);
    assert_eq!(pm, vec![0]);
    assert_eq!(r, 1);
}

#[test]
fn duplicate_inner() {
    let mut table = build(&[&[Some(b"x")], &[Some(b"x"), Some(b"y")]]);
    let mut tm = Vec::new();
    let mut pm = Vec::new();
    let r = table.probe(&batch(&[Some(b"x")]), &mut tm, &mut pm, false, false, u32::MAX);
    assert_eq!(tm, vec![e(0, 0), e(1, 0)]);
    assert_eq!(pm, vec![0, 0]);
    assert_eq!(r, 1);
}

#[test]
fn unmatched_emission() {
    let mut table = build(&[&[Some(b"a")]]);
    let mut tm = Vec::new();
    let mut pm = Vec::new();
    let probe = batch(&[Some(b"a"), None, Some(b"z")]);
    let r = table.probe(&probe, &mut tm, &mut pm, false, true, u32::MAX);
    assert_eq!(tm, vec![e(0, 0), ChunkId::null(), ChunkId::null()]);
    assert_eq!(pm, vec![0, 1, 2]);
    assert_eq!(r, 3);
}

#[test]
fn mark_then_enumerate_unmatched() {
    let mut table = build(&[&[Some(b"a"), Some(b"b"), Some(b"c")]]);
    let mut tm = Vec::new();
    let mut pm = Vec::new();
    let r = table.probe(&batch(&[Some(b"b")]), &mut tm, &mut pm, true, false, u32::MAX);
    assert_eq!(r, 1);
    assert_eq!(tm, vec![e(0, 1)]);
    assert_eq!(unmarked(&table), vec![e(0, 0), e(0, 2)]);
}

#[test]
fn limit_resumption() {
    let mut table = build(&[&[Some(b"a"), Some(b"b")]]);
    let rows: [Option<&[u8]>; 3] = [Some(b"a"), Some(b"b"), Some(b"a")];
    let mut tm = Vec::new();
    let mut pm = Vec::new();
    let r1 = table.probe(&batch(&rows), &mut tm, &mut pm, false, false, 2);
    assert_eq!(r1, 2);
    assert_eq!(tm, vec![e(0, 0), e(0, 1)]);
    assert_eq!(pm, vec![0, 1]);

    let mut tm2 = Vec::new();
    let mut pm2 = Vec::new();
    let r2 = table.probe(&batch(&rows[2..]), &mut tm2, &mut pm2, false, false, 2);
    assert_eq!(r2, 1);
    assert_eq!(tm2, vec![e(0, 0)]);
    assert_eq!(pm2, vec![0]);

    let mut all_tm = Vec::new();
    let mut all_pm = Vec::new();
    let r = table.probe(&batch(&rows), &mut all_tm, &mut all_pm, false, false, u32::MAX);
    assert_eq!(r, 3);
    tm.extend(tm2);
    pm.extend(pm2.iter().map(|p| p + r1));
    assert_eq!(tm, all_tm);
    assert_eq!(pm, all_pm);
}

#[test]
fn probe_subset_uses_subset_ordinals() {
    let mut table = build(&[&[Some(b"a"), Some(b"b")]]);
    let probe = batch(&[Some(b"c"), Some(b"a"), Some(b"b")]);
    let mut tm = Vec::new();
    let mut pm = Vec::new();
    let r = table.probe_subset(&probe, &[2, 1], &mut tm, &mut pm, false, false, u32::MAX);
    assert_eq!(tm, vec![e(0, 1), e(0, 0)]);
    assert_eq!(pm, vec![0, 1]);
    assert_eq!(r, 2);
}

#[test]
fn new_table_is_empty() {
    let mut table = RowEncodedChunkedIdxTable::new();
    assert_eq!(table.num_keys(), 0);
    assert_eq!(unmarked(&table), vec![]);
    let mut tm = vec![e(9, 9)];
    let mut pm = vec![7];
    let r = table.probe(&batch(&[Some(b"a")]), &mut tm, &mut pm, true, false, u32::MAX);
    assert_eq!(r, 1);
    assert!(tm.is_empty());
    assert!(pm.is_empty());
}

#[test]
fn default_and_new_empty_are_empty() {
    let table = RowEncodedChunkedIdxTable::default();
    assert_eq!(table.num_keys(), 0);
    let built = build(&[&[Some(b"a")]]);
    let fresh = built.new_empty();
    assert_eq!(fresh.num_keys(), 0);
    assert_eq!(built.num_keys(), 1);
}

#[test]
fn num_keys_counts_distinct_keys() {
    let table = build(&[&[Some(b"a"), Some(b"b"), Some(b"a")], &[Some(b"b"), Some(b"c"), None]]);
    assert_eq!(table.num_keys(), 3);
}

#[test]
fn reserve_changes_nothing() {
    let mut table = build(&[&[Some(b"a"), Some(b"b")]]);
    table.reserve(1000);
    assert_eq!(table.num_keys(), 2);
    assert_eq!(unmarked(&table), vec![e(0, 0), e(0, 1)]);
    table.insert_key_chunk(batch(&[Some(b"a")]));
    assert_eq!(unmarked(&table), vec![e(0, 0), e(1, 0), e(0, 1)]);
}

#[test]
fn null_keys_are_not_stored() {
    let mut table = build(&[&[None, Some(b"a"), None]]);
    assert_eq!(table.num_keys(), 1);
    assert_eq!(unmarked(&table), vec![e(0, 1)]);
    let mut tm = Vec::new();
    let mut pm = Vec::new();
    table.probe(&batch(&[None]), &mut tm, &mut pm, false, false, u32::MAX);
    assert!(tm.is_empty());
    assert!(pm.is_empty());
}

#[test]
fn empty_chunk_still_counts_as_a_chunk() {
    let table = build(&[&[], &[Some(b"a")]]);
    assert_eq!(unmarked(&table), vec![e(1, 0)]);
}

#[test]
fn inserted_rows_are_found_under_their_key() {
    let chunks: [&[Option<&[u8]>]; 3] =
        [&[Some(b"k1"), Some(b"k2"), None], &[Some(b"k2"), Some(b"k3")], &[Some(b"k1")]];
    let mut table = build(&chunks);
    for (c, chunk) in chunks.iter().enumerate() {
        for (i, key) in chunk.iter().enumerate() {
            if key.is_some() {
                let mut tm = Vec::new();
                let mut pm = Vec::new();
                table.probe(&batch(&[*key]), &mut tm, &mut pm, false, false, u32::MAX);
                assert!(tm.contains(&e(c as u32, i as u32)));
            }
        }
    }
}

#[test]
fn output_columns_have_one_length() {
    let mut table = build(&[&[Some(b"a"), Some(b"a"), Some(b"b")], &[Some(b"a")]]);
    let probe = batch(&[Some(b"a"), None, Some(b"q"), Some(b"b"), Some(b"a")]);
    for mark in [false, true] {
        for emit in [false, true] {
            for limit in [0, 1, 2, 3, 5, 100] {
                let mut tm = Vec::new();
                let mut pm = Vec::new();
                table.probe(&probe, &mut tm, &mut pm, mark, emit, limit);
                assert_eq!(tm.len(), pm.len());
            }
        }
    }
}

#[test]
fn emitted_locators_carry_no_mark() {
    let mut table = build(&[&[Some(b"a"), Some(b"b")], &[Some(b"a")]]);
    let probe = batch(&[Some(b"a"), Some(b"b"), Some(b"zz"), None]);
    let mut tm = Vec::new();
    let mut pm = Vec::new();
    table.probe(&probe, &mut tm, &mut pm, true, true, u32::MAX);
    table.probe(&probe, &mut tm, &mut pm, true, true, u32::MAX);
    assert_eq!(tm, vec![e(0, 0), e(1, 0), e(0, 1), ChunkId::null(), ChunkId::null()]);
    for id in &tm {
        assert!(id.is_null() || !id.is_marked());
    }
}

#[test]
fn probe_without_policies_is_repeatable() {
    let mut table = build(&[&[Some(b"a"), Some(b"b")], &[Some(b"b")]]);
    let probe = batch(&[Some(b"b"), Some(b"a"), Some(b"c")]);
    let before = unmarked(&table);
    let mut tm1 = Vec::new();
    let mut pm1 = Vec::new();
    let r1 = table.probe(&probe, &mut tm1, &mut pm1, false, false, 3);
    let mut tm2 = vec![e(5, 5)];
    let mut pm2 = vec![42, 43];
    let r2 = table.probe(&probe, &mut tm2, &mut pm2, false, false, 3);
    assert_eq!((r1, &tm1, &pm1), (r2, &tm2, &pm2));
    assert_eq!(tm1, vec![e(0, 1), e(1, 0), e(0, 0)]);
    assert_eq!(pm1, vec![0, 0, 1]);
    assert_eq!(r1, 2);
    assert_eq!(unmarked(&table), before);
}

#[test]
fn marks_stay_through_later_calls() {
    let mut table = build(&[&[Some(b"a"), Some(b"b"), Some(b"c")]]);
    let mut tm = Vec::new();
    let mut pm = Vec::new();
    table.probe(&batch(&[Some(b"a")]), &mut tm, &mut pm, true, false, u32::MAX);
    assert_eq!(unmarked(&table), vec![e(0, 1), e(0, 2)]);
    table.probe(&batch(&[Some(b"a"), Some(b"b")]), &mut tm, &mut pm, false, true, u32::MAX);
    assert_eq!(unmarked(&table), vec![e(0, 1), e(0, 2)]);
    table.probe(&batch(&[Some(b"c")]), &mut tm, &mut pm, true, false, u32::MAX);
    assert_eq!(unmarked(&table), vec![e(0, 1)]);
    table.reserve(16);
    table.insert_key_chunk(batch(&[Some(b"a"), Some(b"b"), Some(b"d")]));
    assert_eq!(unmarked(&table), vec![e(0, 1), e(1, 1), e(1, 2)]);
}

#[test]
fn unmarked_keys_after_full_marking_probe() {
    let mut table =
        build(&[&[Some(b"a"), Some(b"b"), Some(b"c"), Some(b"a")], &[Some(b"d"), Some(b"b")]]);
    let probe = batch(&[Some(b"d"), None, Some(b"a"), Some(b"nope"), Some(b"a")]);
    let mut tm = Vec::new();
    let mut pm = Vec::new();
    let r = table.probe(&probe, &mut tm, &mut pm, true, false, u32::MAX);
    assert_eq!(r, 5);
    assert_eq!(unmarked(&table), vec![e(0, 1), e(1, 1), e(0, 2)]);
}

#[test]
fn unmarked_keys_appends_to_the_buffer() {
    let table = build(&[&[Some(b"a")]]);
    let mut out = vec![e(7, 7)];
    table.unmarked_keys(&mut out);
    assert_eq!(out, vec![e(7, 7), e(0, 0)]);
}

#[test]
fn marking_probe_is_idempotent() {
    let mut table = build(&[&[Some(b"a"), Some(b"b"), Some(b"c")], &[Some(b"a")]]);
    let probe = batch(&[Some(b"a"), Some(b"x"), None, Some(b"c")]);
    let mut tm1 = Vec::new();
    let mut pm1 = Vec::new();
    let r1 = table.probe(&probe, &mut tm1, &mut pm1, true, true, 4);
    let marks1 = unmarked(&table);
    let mut tm2 = Vec::new();
    let mut pm2 = Vec::new();
    let r2 = table.probe(&probe, &mut tm2, &mut pm2, true, true, 4);
    assert_eq!(r1, r2);
    assert_eq!(tm1, tm2);
    assert_eq!(pm1, pm2);
    assert_eq!(unmarked(&table), marks1);
    assert_eq!(tm1, vec![e(0, 0), e(1, 0), ChunkId::null(), ChunkId::null()]);
    assert_eq!(r1, 3);
    assert_eq!(marks1, vec![e(0, 1), e(0, 2)]);
}

#[test]
fn limit_counts_the_row_that_reaches_it() {
    let mut table = build(&[&[Some(b"a"), Some(b"a"), Some(b"a"), Some(b"b")]]);
    let probe = batch(&[Some(b"z"), Some(b"a"), Some(b"b")]);
    let mut tm = Vec::new();
    let mut pm = Vec::new();
    let r = table.probe(&probe, &mut tm, &mut pm, false, false, 1);
    assert_eq!(r, 2);
    assert_eq!(tm, vec![e(0, 0), e(0, 1), e(0, 2)]);
    assert_eq!(pm, vec![1, 1, 1]);
}

#[test]
fn limit_zero_consumes_one_row() {
    let mut table = build(&[&[Some(b"a")]]);
    let mut tm = Vec::new();
    let mut pm = Vec::new();
    let r = table.probe(&batch(&[Some(b"q"), Some(b"a")]), &mut tm, &mut pm, false, false, 0);
    assert_eq!(r, 1);
    assert!(tm.is_empty());
    let r = table.probe(&batch(&[]), &mut tm, &mut pm, false, false, 0);
    assert_eq!(r, 0);
}

#[test]
fn limit_resumption_with_marks() {
    let mut table = build(&[&[Some(b"a"), Some(b"b"), Some(b"c"), Some(b"d")]]);
    let rows: [Option<&[u8]>; 5] = [Some(b"a"), None, Some(b"c"), Some(b"x"), Some(b"d")];
    let mut whole = build(&[&[Some(b"a"), Some(b"b"), Some(b"c"), Some(b"d")]]);
    let mut all_tm = Vec::new();
    let mut all_pm = Vec::new();
    whole.probe(&batch(&rows), &mut all_tm, &mut all_pm, true, true, u32::MAX);

    let mut got_tm = Vec::new();
    let mut got_pm = Vec::new();
    let mut done: usize = 0;
    while done < rows.len() {
        let mut tm = Vec::new();
        let mut pm = Vec::new();
        let r = table.probe(&batch(&rows[done..]), &mut tm, &mut pm, true, true, 2);
        got_tm.extend(tm);
        got_pm.extend(pm.iter().map(|p| p + done as u32));
        done += r as usize;
    }
    assert_eq!(got_tm, all_tm);
    assert_eq!(got_pm, all_pm);
    assert_eq!(unmarked(&table), unmarked(&whole));
    assert_eq!(unmarked(&table), vec![e(0, 1)]);
}

#[test]
fn null_keys_never_match() {
    let mut table = build(&[&[Some(b""), Some(b"a")]]);
    let probe = batch(&[None, Some(b""), None]);
    let mut tm = Vec::new();
    let mut pm = Vec::new();
    table.probe(&probe, &mut tm, &mut pm, false, true, u32::MAX);
    assert_eq!(tm, vec![ChunkId::null(), e(0, 0), ChunkId::null()]);
    assert_eq!(pm, vec![0, 1, 2]);
    table.probe(&probe, &mut tm, &mut pm, true, false, u32::MAX);
    assert_eq!(tm, vec![e(0, 0)]);
    assert_eq!(pm, vec![1]);
}

#[test]
fn keys_are_equal_when_hash_and_bytes_are() {
    let hashes = vec![1, 1, 2];
    let keys = vec![Some(b"a".to_vec()), Some(b"b".to_vec()), Some(b"a".to_vec())];
    let mut table = RowEncodedChunkedIdxTable::new();
    table.insert_key_chunk(HashKeys::RowEncoded(RowEncodedKeys::new(hashes, keys).unwrap()));
    assert_eq!(table.num_keys(), 3);
    let probe =
        HashKeys::RowEncoded(RowEncodedKeys::new(vec![1, 2, 2], vec![
            Some(b"b".to_vec()),
            Some(b"a".to_vec()),
            Some(b"b".to_vec()),
        ]).unwrap());
    let mut tm = Vec::new();
    let mut pm = Vec::new();
    table.probe(&probe, &mut tm, &mut pm, false, true, u32::MAX);
    assert_eq!(tm, vec![e(0, 1), e(0, 2), ChunkId::null()]);
    assert_eq!(pm, vec![0, 1, 2]);
}

#[test]
fn probe_subset_with_policies_and_limit() {
    let mut table = build(&[&[Some(b"a"), Some(b"b")], &[Some(b"b")]]);
    let probe = batch(&[Some(b"c"), Some(b"a"), None, Some(b"b")]);
    let mut tm = Vec::new();
    let mut pm = Vec::new();
    let r = table.probe_subset(&probe, &[3, 3, 2, 0, 1], &mut tm, &mut pm, true, true, 5);
    assert_eq!(r, 3);
    assert_eq!(tm, vec![e(0, 1), e(1, 0), e(0, 1), e(1, 0), ChunkId::null()]);
    assert_eq!(pm, vec![0, 0, 1, 1, 2]);
    assert_eq!(unmarked(&table), vec![e(0, 0)]);
    let r = table.probe_subset(&probe, &[], &mut tm, &mut pm, true, true, 5);
    assert_eq!(r, 0);
    assert!(tm.is_empty() && pm.is_empty());
}

#[test]
fn row_encoded_keys_need_parallel_columns() {
    assert!(RowEncodedKeys::new(vec![1, 2], vec![None]).is_none());
    let keys = RowEncodedKeys::new(vec![1, 2], vec![None, Some(vec![9, 8])]).unwrap();
    assert_eq!(keys.len(), 2);
    assert_eq!(keys.hash(1), 2);
    assert_eq!(keys.key(0), None);
    assert_eq!(keys.key(1), Some(&[9u8, 8][..]));
}

#[test]
fn many_keys_keep_insertion_order() {
    let names: Vec<Vec<u8>> = (0..2000u32).map(|i| format!("key-{i}").into_bytes()).collect();
    let rows: Vec<Option<&[u8]>> = names.iter().map(|k| Some(k.as_slice())).collect();
    let mut table = build(&[&rows, &rows[..10]]);
    assert_eq!(table.num_keys(), 2000);
    let mut tm = Vec::new();
    let mut pm = Vec::new();
    let r = table.probe(&batch(&rows[5..1995]), &mut tm, &mut pm, true, false, u32::MAX);
    assert_eq!(r, 1990);
    assert_eq!(tm.len(), 1990 + 5);
    let mut expect: Vec<ChunkId> = Vec::new();
    for i in 0..5 {
        expect.push(e(0, i));
        expect.push(e(1, i));
    }
    for i in 1995..2000 {
        expect.push(e(0, i));
    }
    assert_eq!(unmarked(&table), expect);
}

#[test]
fn num_chunks_counts_inserted_chunks() {
    let mut table = RowEncodedChunkedIdxTable::new();
    assert_eq!(table.num_chunks(), 0);
    table.insert_key_chunk(batch(&[]));
    table.insert_key_chunk(batch(&[None, Some(b"a")]));
    assert_eq!(table.num_chunks(), 2);
    let mut tm = Vec::new();
    let mut pm = Vec::new();
    table.probe(&batch(&[Some(b"a")]), &mut tm, &mut pm, true, true, 1);
    assert_eq!(table.num_chunks(), 2);
}

#[test]
fn accepts_chunk_takes_row_encoded_batches() {
    let table = build(&[&[Some(b"a"), Some(b"a")]]);
    assert!(table.accepts_chunk(&batch(&[])));
    assert!(table.accepts_chunk(&batch(&[Some(b"a"), None, Some(b"b")])));
}

#[test]
fn accepts_chunk_refuses_the_other_encoding() {
    let table = RowEncodedChunkedIdxTable::new();
    let single = HashKeys::Single(chunked_idx_table::hash_keys::SingleKeys { hashes: vec![1, 2] });
    assert!(!table.accepts_chunk(&single));
}

#[test]
fn long_buckets_keep_insertion_order() {
    let rows: Vec<Option<&[u8]>> = (0..40).map(|_| Some(&b"same"[..])).collect();
    let mut table = build(&[&rows, &rows[..3]]);
    assert_eq!(table.num_keys(), 1);
    let mut expect: Vec<ChunkId> = (0..40).map(|i| e(0, i)).collect();
    expect.extend((0..3).map(|i| e(1, i)));
    assert_eq!(unmarked(&table), expect);
    let mut tm = Vec::new();
    let mut pm = Vec::new();
    let r = table.probe(&batch(&[Some(b"same"), Some(b"same")]), &mut tm, &mut pm, true, false, 50);
    assert_eq!(r, 2);
    assert_eq!(tm[..43], expect[..]);
    assert_eq!(tm[43..], expect[..]);
    assert_eq!(pm.iter().filter(|p| **p == 0).count(), 43);
    assert_eq!(pm.iter().filter(|p| **p == 1).count(), 43);
    assert_eq!(unmarked(&table), vec![]);
}
