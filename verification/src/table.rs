//! The table itself: chunked build, probing with optional marking, and the
//! enumeration of the keys that no probe matched.

use crate::chunk_id::{
    lemma_encode, lemma_set_mark, raws, spec_encode, spec_is_marked, spec_strip_mark, ChunkId,
    MAX_CHUNKS, MAX_CHUNK_ROWS, NULL_RAW,
};
use crate::hash_keys::{HashKeys, KeyRow, RowEncodedKeys};
use crate::idx_map::{
    entry_matches, map_entries, map_get, map_get_or_insert, map_len, map_new, map_reserve,
};
use crate::idx_vec::{
    bucket_as_mut_slice, bucket_as_slice, bucket_cells, bucket_new, bucket_push, MAX_BUCKET_CELLS,
};
use crate::laws::law_inserted_row_is_found;
use crate::lemmas::{
    lemma_extends_keeps_marks, lemma_insert_row, lemma_insert_rows, lemma_key_index,
    lemma_mark_key, lemma_mark_probed, lemma_mark_probed_step, lemma_marked_row_matches,
    lemma_marks_kept_refl, lemma_matches_shape,
};
use crate::model::{
    bucket_of, buckets_fit, buckets_wf, extends, gather, grown_by, has_key, holds_key, insert_row,
    insert_rows, key_index, key_probed, keys_distinct, keys_fit, mark_entry, mark_key, mark_probed,
    marks_kept, probe_matches, probe_result, row_hits, row_matches, rows_consumed, selected,
    stripped, subset_in_bounds, table_matches, unmarked_cells, KeyEntry, TableView,
};
use polars_utils::idx_map::bytes_idx_map::BytesIndexMap;
use polars_utils::idx_vec::UnitVec;
use polars_utils::IdxSize;
use vstd::prelude::*;

verus! {

/// A chunked index table over row-encoded keys.
///
/// The key directory maps every distinct key to the ordinal of its bucket;
/// bucket `i` belongs to the `i`-th key inserted. A bucket holds the raw
/// locators of the rows with that key, in insertion order, and bit 63 of its
/// first cell is the key's mark.
pub struct RowEncodedChunkedIdxTable {
    idx_map: BytesIndexMap<IdxSize>,
    buckets: Vec<UnitVec<u64>>,
    chunk_ctr: u32,
}

impl View for RowEncodedChunkedIdxTable {
    type V = TableView;

    closed spec fn view(&self) -> TableView {
        TableView {
            entries: Seq::new(
                self.buckets@.len(),
                |i: int|
                    KeyEntry {
                        hash: map_entries(self.idx_map)[i].0,
                        key: map_entries(self.idx_map)[i].1,
                        cells: bucket_cells(self.buckets@[i]),
                    },
            ),
            chunk_ctr: self.chunk_ctr as nat,
        }
    }
}

impl RowEncodedChunkedIdxTable {
    /// Whether the directory and the buckets line up.
    closed spec fn linked(&self) -> bool {
        &&& map_entries(self.idx_map).len() == self.buckets@.len()
        &&& forall|i: int|
            0 <= i < self.buckets@.len() ==> (#[trigger] map_entries(self.idx_map)[i]).2 == i
    }

    /// The invariant that every operation keeps.
    pub closed spec fn wf(&self) -> bool {
        self.linked() && self@.wf()
    }

    /// What `wf` means for the abstract state.
    pub proof fn lemma_wf(&self)
        requires
            self.wf(),
        ensures
            self@.wf(),
    {
    }

    /// An empty table.
    pub fn new() -> (t: Self)
        ensures
            t.wf(),
            t@ == TableView::empty(),
    {
        let t =
            RowEncodedChunkedIdxTable { idx_map: map_new(), buckets: Vec::new(), chunk_ctr: 0 };
        assert(t@.entries =~= Seq::<KeyEntry>::empty());
        t
    }

    /// A fresh empty table of the same implementation.
    pub fn new_empty(&self) -> (t: Self)
        ensures
            t.wf(),
            t@ == TableView::empty(),
    {
        Self::new()
    }

    /// Makes room for `additional` more distinct keys. The table's contents
    /// stay as they are.
    pub fn reserve(&mut self, additional: usize)
        requires
            old(self).wf(),
        ensures
            final(self).wf(),
            final(self)@ == old(self)@,
    {
        map_reserve(&mut self.idx_map, additional);
        self.buckets.reserve(additional);
        assert(self@.entries =~= old(self)@.entries);
    }

    /// The number of distinct keys.
    pub fn num_keys(&self) -> (n: IdxSize)
        requires
            self.wf(),
        ensures
            n == self@.entries.len(),
    {
        map_len(&self.idx_map)
    }

    /// The number of chunks inserted so far.
    pub fn num_chunks(&self) -> (n: u32)
        ensures
            n == self@.chunk_ctr,
    {
        self.chunk_ctr
    }

    /// Whether [`Self::insert_key_chunk`] can take this batch now: it is
    /// row-encoded and holds fewer than 2^31 rows, fewer than 2^31 chunks
    /// were inserted, every key's length fits in an `IdxSize`, so does the
    /// number of keys even if every row brings a new one, no bucket gets too
    /// long even if every row joins it, and pointers are 64 bits wide.
    pub fn accepts_chunk(&self, hash_keys: &HashKeys) -> (ok: bool)
        requires
            self.wf(),
        ensures
            ok <==> {
                &&& hash_keys is RowEncoded
                &&& hash_keys.rows().len() < MAX_CHUNK_ROWS
                &&& self@.chunk_ctr < MAX_CHUNKS
                &&& keys_fit(hash_keys.rows())
                &&& self@.entries.len() + hash_keys.rows().len() <= IdxSize::MAX
                &&& forall|i: int|
                    0 <= i < self@.entries.len() ==> (#[trigger] self@.entries[i]).cells.len()
                        + hash_keys.rows().len() <= MAX_BUCKET_CELLS
                &&& usize::BITS == 64
            },
            ok ==> insert_rows(
                self@.entries,
                hash_keys.rows(),
                self@.chunk_ctr as u32,
                hash_keys.rows().len() as int,
            ).len() <= IdxSize::MAX,
            ok ==> buckets_fit(
                insert_rows(
                    self@.entries,
                    hash_keys.rows(),
                    self@.chunk_ctr as u32,
                    hash_keys.rows().len() as int,
                ),
            ),
    {
        let keys = match hash_keys {
            HashKeys::RowEncoded(keys) => keys,
            HashKeys::Single(_) => {
                return false;
            },
        };
        let n: usize = keys.len();
        if n >= MAX_CHUNK_ROWS || self.chunk_ctr >= MAX_CHUNKS {
            return false;
        }
        if n as u64 + self.num_keys() as u64 > IdxSize::MAX as u64 {
            return false;
        }
        if usize::BITS != 64 {
            return false;
        }
        let ghost rows: Seq<KeyRow> = keys@;
        let ghost entries: Seq<KeyEntry> = self@.entries;
        let m: usize = self.buckets.len();
        let mut b: usize = 0;
        while b < m
            invariant
                b <= m,
                m == self.buckets@.len(),
                m == entries.len(),
                entries == self@.entries,
                n == rows.len(),
                rows == hash_keys.rows(),
                n < MAX_CHUNK_ROWS,
                forall|j: int|
                    0 <= j < b ==> (#[trigger] entries[j]).cells.len() + n <= MAX_BUCKET_CELLS,
            decreases m - b,
        {
            let len: usize = bucket_as_slice(&self.buckets[b]).len();
            if len > MAX_BUCKET_CELLS - n {
                assert(entries[b as int].cells.len() + n > MAX_BUCKET_CELLS);
                return false;
            }
            b += 1;
        }
        let mut i: usize = 0;
        while i < n
            invariant
                i <= n,
                n == rows.len(),
                rows == keys@,
                rows == hash_keys.rows(),
                entries == self@.entries,
                forall|j: int|
                    0 <= j < entries.len() ==> (#[trigger] entries[j]).cells.len() + n
                        <= MAX_BUCKET_CELLS,
                forall|j: int|
                    0 <= j < i ==> match (#[trigger] rows[j]).1 {
                        Some(key) => key.len() <= u32::MAX,
                        None => true,
                    },
            decreases n - i,
        {
            match keys.key(i) {
                Some(key) => {
                    if key.len() as u64 > IdxSize::MAX as u64 {
                        assert(!keys_fit(rows)) by {
                            assert(rows[i as int].1 == Some(key@));
                        }
                        return false;
                    }
                },
                None => {},
            }
            i += 1;
        }
        proof {
            assert(buckets_wf(self@.entries, self@.chunk_ctr + 1));
            lemma_insert_rows(
                self@.entries,
                rows,
                self.chunk_ctr,
                n as int,
                (self.chunk_ctr + 1) as nat,
            );
            let after = insert_rows(self@.entries, rows, self.chunk_ctr, n as int);
            assert(grown_by(self@.entries, after, n as int));
            assert forall|j: int| 0 <= j < after.len() implies (#[trigger] after[j]).cells.len()
                <= MAX_BUCKET_CELLS by {
                if j < entries.len() {
                    assert(entries[j].cells.len() + n <= MAX_BUCKET_CELLS);
                }
            }
        }
        true
    }

    /// Builds one chunk: row `i` of the batch, unless its key is null, puts
    /// the locator `encode(chunk_ctr, i)` into the bucket of its key.
    ///
    /// A chunk holds fewer than 2^31 rows, and at most 2^31 chunks can be
    /// inserted. The directory counts its keys and measures them in
    /// `IdxSize`: the keys of the result have to stay countable, and every
    /// key's length has to fit. A bucket holds at most 2^31 locators, and
    /// keeps its first one in the place of a 64-bit pointer.
    /// [`Self::accepts_chunk`] tests all of this.
    pub fn insert_key_chunk(&mut self, hash_keys: HashKeys)
        requires
            old(self).wf(),
            hash_keys is RowEncoded,
            hash_keys.rows().len() < MAX_CHUNK_ROWS,
            old(self)@.chunk_ctr < MAX_CHUNKS,
            insert_rows(
                old(self)@.entries,
                hash_keys.rows(),
                old(self)@.chunk_ctr as u32,
                hash_keys.rows().len() as int,
            ).len() <= IdxSize::MAX,
            keys_fit(hash_keys.rows()),
            buckets_fit(
                insert_rows(
                    old(self)@.entries,
                    hash_keys.rows(),
                    old(self)@.chunk_ctr as u32,
                    hash_keys.rows().len() as int,
                ),
            ),
            usize::BITS == 64,
        ensures
            final(self).wf(),
            final(self)@.chunk_ctr == old(self)@.chunk_ctr + 1,
            final(self)@.entries == insert_rows(
                old(self)@.entries,
                hash_keys.rows(),
                old(self)@.chunk_ctr as u32,
                hash_keys.rows().len() as int,
            ),
            extends(old(self)@.entries, final(self)@.entries),
            marks_kept(old(self)@.entries, final(self)@.entries),
            forall|i: int|
                0 <= i < hash_keys.rows().len() && (#[trigger] hash_keys.rows()[i]).1 is Some
                    ==> (bucket_of(
                    final(self)@.entries,
                    hash_keys.rows()[i].0,
                    hash_keys.rows()[i].1->0,
                ) matches Some(cells) && cells.contains(
                    spec_encode(old(self)@.chunk_ctr as u32, i as u32),
                )),
    {
        let keys = match hash_keys {
            HashKeys::RowEncoded(keys) => keys,
            HashKeys::Single(_) => unreached(),
        };
        let n: usize = keys.len();
        let chunk: u32 = self.chunk_ctr;
        let ghost rows: Seq<KeyRow> = keys@;
        let ghost start: Seq<KeyEntry> = self@.entries;
        let ghost ctr: nat = (chunk + 1) as nat;
        proof {
            lemma_insert_rows(start, rows, chunk, n as int, ctr);
        }
        let mut i: usize = 0;
        while i < n
            invariant
                i <= n,
                n == rows.len(),
                n < MAX_CHUNK_ROWS,
                rows == keys@,
                chunk < MAX_CHUNKS,
                ctr == chunk + 1,
                self.chunk_ctr == chunk,
                self.linked(),
                keys_distinct(start),
                buckets_wf(start, ctr),
                keys_distinct(self@.entries),
                buckets_wf(self@.entries, ctr),
                self@.entries == insert_rows(start, rows, chunk, i as int),
                insert_rows(start, rows, chunk, n as int).len() <= IdxSize::MAX,
                buckets_fit(insert_rows(start, rows, chunk, n as int)),
                usize::BITS == 64,
                forall|m: int|
                    0 <= m <= n ==> extends(
                        #[trigger] insert_rows(start, rows, chunk, m),
                        insert_rows(start, rows, chunk, n as int),
                    ),
                keys_fit(rows),
            decreases n - i,
        {
            let hash: u64 = keys.hash(i);
            let ghost before: Seq<KeyEntry> = self@.entries;
            proof {
                assert(extends(
                    insert_rows(start, rows, chunk, i as int),
                    insert_rows(start, rows, chunk, n as int),
                ));
                assert(extends(
                    insert_rows(start, rows, chunk, i + 1),
                    insert_rows(start, rows, chunk, n as int),
                ));
            }
            match keys.key(i) {
                Some(key) => {
                    let cid: u64 = ChunkId::encode(chunk, i as u32).into_inner();
                    let fresh: IdxSize = map_len(&self.idx_map);
                    let ghost dir = map_entries(self.idx_map);
                    proof {
                        lemma_encode(chunk, i as u32);
                        lemma_insert_row(before, hash, key@, cid, ctr);
                        assert(rows[i as int].1 == Some(key@));
                        assert(insert_rows(start, rows, chunk, i + 1) == insert_row(
                            before,
                            hash,
                            key@,
                            cid,
                        ));
                    }
                    match map_get_or_insert(&mut self.idx_map, hash, key, fresh) {
                        Some(idx) => {
                            proof {
                                let w = choose|w: int|
                                    0 <= w < dir.len() && entry_matches(
                                        #[trigger] dir[w],
                                        hash,
                                        key@,
                                    ) && dir[w].2 == idx;
                                assert(w == idx);
                                assert(holds_key(before[w], hash, key@));
                                lemma_key_index(before, hash, key@, w);
                                let next = insert_row(before, hash, key@, cid);
                                let last = insert_rows(start, rows, chunk, n as int);
                                assert(next[w].cells.is_prefix_of(last[w].cells));
                                assert(last[w].cells.len() <= MAX_BUCKET_CELLS);
                            }
                            bucket_push(&mut self.buckets[idx as usize], cid);
                            assert(self@.entries =~= insert_row(before, hash, key@, cid));
                        },
                        None => {
                            proof {
                                assert(!has_key(before, hash, key@)) by {
                                    if has_key(before, hash, key@) {
                                        let w = key_index(before, hash, key@);
                                        assert(entry_matches(dir[w], hash, key@));
                                    }
                                }
                            }
                            let mut bucket: UnitVec<u64> = bucket_new();
                            bucket_push(&mut bucket, cid);
                            assert(bucket_cells(bucket) =~= seq![cid]);
                            self.buckets.push(bucket);
                            assert(self@.entries =~= insert_row(before, hash, key@, cid));
                        },
                    }
                },
                None => {
                    assert(rows[i as int].1 is None);
                },
            }
            i += 1;
        }
        self.chunk_ctr = chunk + 1;
        proof {
            lemma_extends_keeps_marks(start, self@.entries, ctr);
            assert forall|i: int| 0 <= i < rows.len() && (#[trigger] rows[i]).1 is Some implies (
            bucket_of(self@.entries, rows[i].0, rows[i].1->0) matches Some(cells)
                && cells.contains(spec_encode(chunk, i as u32))) by {
                law_inserted_row_is_found(old(self)@, rows, i);
            }
        }
    }

    /// Probes one non-null key: emits its bucket, or the null locator for a
    /// miss where unmatched rows are asked for, and marks the key if asked.
    fn probe_one<const MARK_MATCHES: bool, const EMIT_UNMATCHED: bool>(
        &mut self,
        hash: u64,
        key: &[u8],
        key_idx: IdxSize,
        table_match: &mut Vec<ChunkId>,
        probe_match: &mut Vec<IdxSize>,
    )
        requires
            old(self).wf(),
        ensures
            final(self).wf(),
            final(self)@.chunk_ctr == old(self)@.chunk_ctr,
            final(self)@.entries == if MARK_MATCHES {
                mark_key(old(self)@.entries, hash, key@)
            } else {
                old(self)@.entries
            },
            raws(final(table_match)@) == raws(old(table_match)@) + row_matches(
                old(self)@.entries,
                (hash, Some(key@)),
                EMIT_UNMATCHED,
            ),
            final(probe_match)@ == old(probe_match)@ + Seq::new(
                row_matches(old(self)@.entries, (hash, Some(key@)), EMIT_UNMATCHED).len(),
                |k: int| key_idx,
            ),
    {
        let ghost entries: Seq<KeyEntry> = self@.entries;
        let ghost dir = map_entries(self.idx_map);
        let ghost tm0: Seq<u64> = raws(table_match@);
        let ghost pm0: Seq<IdxSize> = probe_match@;
        let ghost row: KeyRow = (hash, Some(key@));
        match map_get(&self.idx_map, hash, key) {
            Some(idx) => {
                proof {
                    let w = choose|w: int|
                        0 <= w < dir.len() && entry_matches(#[trigger] dir[w], hash, key@)
                            && dir[w].2 == idx;
                    assert(w == idx);
                    assert(holds_key(entries[w], hash, key@));
                    lemma_key_index(entries, hash, key@, w);
                }
                let ghost cells: Seq<u64> = entries[idx as int].cells;
                let bucket: &[u64] = bucket_as_slice(&self.buckets[idx as usize]);
                let len: usize = bucket.len();
                let mut j: usize = 0;
                while j < len
                    invariant
                        j <= len,
                        len == cells.len(),
                        bucket@ == cells,
                        raws(table_match@) == tm0 + stripped(cells).subrange(0, j as int),
                        probe_match@ == pm0 + Seq::new(j as nat, |k: int| key_idx),
                    decreases len - j,
                {
                    let raw: u64 = bucket[j];
                    let ghost tm1: Seq<u64> = raws(table_match@);
                    let ghost pm1: Seq<IdxSize> = probe_match@;
                    table_match.push(ChunkId::from_inner(raw).strip_mark());
                    probe_match.push(key_idx);
                    proof {
                        assert(raws(table_match@) =~= tm1.push(spec_strip_mark(raw)));
                        assert(stripped(cells).subrange(0, j + 1) =~= stripped(cells).subrange(
                            0,
                            j as int,
                        ).push(spec_strip_mark(raw)));
                        assert(raws(table_match@) =~= tm0 + stripped(cells).subrange(0, j + 1));
                        assert(probe_match@ =~= pm0 + Seq::new((j + 1) as nat, |k: int| key_idx));
                    }
                    j += 1;
                }
                proof {
                    assert(stripped(cells).subrange(0, len as int) =~= stripped(cells));
                    assert(cells.len() >= 1);
                }
                if MARK_MATCHES {
                    let first: u64 = bucket[0];
                    if !ChunkId::from_inner(first).is_marked() {
                        let marked: u64 = ChunkId::from_inner(first).set_mark().into_inner();
                        let cells_mut: &mut [u64] = bucket_as_mut_slice(
                            &mut self.buckets[idx as usize],
                        );
                        cells_mut[0] = marked;
                    }
                    proof {
                        lemma_set_mark(first);
                        lemma_mark_key(entries, hash, key@, self.chunk_ctr as nat);
                        assert(self@.entries =~= mark_key(entries, hash, key@)) by {
                            assert(bucket_cells(self.buckets@[idx as int]) =~= mark_entry(
                                entries[idx as int],
                            ).cells);
                        }
                    }
                } else {
                    assert(self@.entries =~= entries);
                }
            },
            None => {
                proof {
                    assert(!has_key(entries, hash, key@)) by {
                        if has_key(entries, hash, key@) {
                            let w = key_index(entries, hash, key@);
                            assert(entry_matches(dir[w], hash, key@));
                        }
                    }
                }
                if EMIT_UNMATCHED {
                    table_match.push(ChunkId::null());
                    probe_match.push(key_idx);
                    proof {
                        assert(raws(table_match@) =~= tm0 + seq![NULL_RAW]);
                        assert(probe_match@ =~= pm0 + Seq::new(1, |k: int| key_idx));
                    }
                } else {
                    proof {
                        assert(raws(table_match@) =~= tm0 + Seq::<u64>::empty());
                        assert(probe_match@ =~= pm0 + Seq::new(0, |k: int| key_idx));
                    }
                }
                assert(self@.entries =~= entries);
            },
        }
    }

    /// The probe loop for one choice of the two policies. Row `k` of the walk
    /// is row `k` of the batch, or row `subset[k]` where a subset is given.
    fn probe_impl<const MARK_MATCHES: bool, const EMIT_UNMATCHED: bool>(
        &mut self,
        keys: &RowEncodedKeys,
        subset: Option<&[IdxSize]>,
        table_match: &mut Vec<ChunkId>,
        probe_match: &mut Vec<IdxSize>,
        limit: IdxSize,
    ) -> (r: IdxSize)
        requires
            old(self).wf(),
            subset matches Some(s) ==> subset_in_bounds(keys@, s@),
            selected(keys@, spec_subset(subset)).len() <= IdxSize::MAX,
        ensures
            final(self).wf(),
            probe_result(
                old(self)@,
                final(self)@,
                selected(keys@, spec_subset(subset)),
                MARK_MATCHES,
                EMIT_UNMATCHED,
                limit as nat,
                raws(final(table_match)@),
                final(probe_match)@,
                r as int,
            ),
    {
        table_match.clear();
        probe_match.clear();
        let ghost start: Seq<KeyEntry> = self@.entries;
        let ghost ctr: nat = self@.chunk_ctr;
        let ghost rows: Seq<KeyRow> = selected(keys@, spec_subset(subset));
        let n: usize = match subset {
            Some(s) => s.len(),
            None => keys.len(),
        };
        let mut keys_processed: IdxSize = 0;
        proof {
            assert(raws(table_match@) =~= table_matches(start, rows, EMIT_UNMATCHED, 0));
            assert(probe_match@ =~= probe_matches(start, rows, EMIT_UNMATCHED, 0));
            if MARK_MATCHES {
                assert(mark_probed(start, rows, 0) =~= start) by {
                    assert forall|i: int| 0 <= i < start.len() implies !key_probed(
                        rows,
                        0,
                        start[i].hash,
                        start[i].key,
                    ) by {}
                }
            }
        }
        while (keys_processed as usize) < n
            invariant
                keys_processed <= n,
                n == rows.len(),
                n <= IdxSize::MAX,
                rows == selected(keys@, spec_subset(subset)),
                subset matches Some(s) ==> subset_in_bounds(keys@, s@),
                self.wf(),
                start == old(self)@.entries,
                ctr == old(self)@.chunk_ctr,
                keys_distinct(start),
                buckets_wf(start, ctr),
                self@.chunk_ctr == ctr,
                self@.entries == if MARK_MATCHES {
                    mark_probed(start, rows, keys_processed as int)
                } else {
                    start
                },
                raws(table_match@) == table_matches(
                    start,
                    rows,
                    EMIT_UNMATCHED,
                    keys_processed as int,
                ),
                probe_match@ == probe_matches(start, rows, EMIT_UNMATCHED, keys_processed as int),
                forall|q: int|
                    1 <= q <= keys_processed ==> (#[trigger] table_matches(
                        start,
                        rows,
                        EMIT_UNMATCHED,
                        q,
                    )).len() < limit,
            decreases n - keys_processed,
        {
            let idx: usize = match subset {
                Some(s) => s[keys_processed as usize] as usize,
                None => keys_processed as usize,
            };
            let hash: u64 = keys.hash(idx);
            let ghost k: int = keys_processed as int;
            let ghost row: KeyRow = rows[k];
            let ghost before: Seq<KeyEntry> = self@.entries;
            let ghost tm1: Seq<u64> = raws(table_match@);
            let ghost pm1: Seq<IdxSize> = probe_match@;
            proof {
                assert(row == keys@[idx as int]);
                if MARK_MATCHES {
                    lemma_mark_probed_step(start, rows, k, ctr);
                    lemma_marked_row_matches(start, rows, k, row, EMIT_UNMATCHED, ctr);
                }
            }
            match keys.key(idx) {
                Some(key) => {
                    assert(row == (hash, Some(key@)));
                    self.probe_one::<MARK_MATCHES, EMIT_UNMATCHED>(
                        hash,
                        key,
                        keys_processed,
                        table_match,
                        probe_match,
                    );
                },
                None => {
                    assert(row.1 is None);
                    if EMIT_UNMATCHED {
                        table_match.push(ChunkId::null());
                        probe_match.push(keys_processed);
                        proof {
                            assert(raws(table_match@) =~= tm1 + seq![NULL_RAW]);
                            assert(probe_match@ =~= pm1 + Seq::new(1, |j: int| keys_processed));
                        }
                    } else {
                        proof {
                            assert(raws(table_match@) =~= tm1 + Seq::<u64>::empty());
                            assert(probe_match@ =~= pm1 + Seq::new(0, |j: int| keys_processed));
                        }
                    }
                },
            }
            proof {
                let m = row_matches(start, row, EMIT_UNMATCHED);
                assert(raws(table_match@) == tm1 + m);
                assert(probe_match@ =~= pm1 + Seq::new(m.len(), |j: int| k as u32));
                assert(raws(table_match@) == table_matches(start, rows, EMIT_UNMATCHED, k + 1));
                assert(probe_match@ == probe_matches(start, rows, EMIT_UNMATCHED, k + 1));
                assert(self@.entries == if MARK_MATCHES {
                    mark_probed(start, rows, k + 1)
                } else {
                    start
                });
            }
            keys_processed += 1;
            if table_match.len() >= limit as usize {
                proof {
                    assert(raws(table_match@).len() == table_match@.len());
                    assert(rows_consumed(
                        start,
                        rows,
                        EMIT_UNMATCHED,
                        limit as nat,
                        keys_processed as int,
                    ));
                }
                return keys_processed;
            }
            proof {
                assert(raws(table_match@).len() == table_match@.len());
            }
        }
        keys_processed
    }

    /// Picks the probe loop for the two policies.
    fn probe_dispatch(
        &mut self,
        keys: &RowEncodedKeys,
        subset: Option<&[IdxSize]>,
        table_match: &mut Vec<ChunkId>,
        probe_match: &mut Vec<IdxSize>,
        mark_matches: bool,
        emit_unmatched: bool,
        limit: IdxSize,
    ) -> (r: IdxSize)
        requires
            old(self).wf(),
            subset matches Some(s) ==> subset_in_bounds(keys@, s@),
            selected(keys@, spec_subset(subset)).len() <= IdxSize::MAX,
        ensures
            final(self).wf(),
            probe_result(
                old(self)@,
                final(self)@,
                selected(keys@, spec_subset(subset)),
                mark_matches,
                emit_unmatched,
                limit as nat,
                raws(final(table_match)@),
                final(probe_match)@,
                r as int,
            ),
    {
        match (mark_matches, emit_unmatched) {
            (false, false) => self.probe_impl::<false, false>(
                keys,
                subset,
                table_match,
                probe_match,
                limit,
            ),
            (false, true) => self.probe_impl::<false, true>(
                keys,
                subset,
                table_match,
                probe_match,
                limit,
            ),
            (true, false) => self.probe_impl::<true, false>(
                keys,
                subset,
                table_match,
                probe_match,
                limit,
            ),
            (true, true) => self.probe_impl::<true, true>(
                keys,
                subset,
                table_match,
                probe_match,
                limit,
            ),
        }
    }

    /// Probes the rows of a batch in order.
    ///
    /// The two output columns are cleared and then filled in lock-step: one
    /// locator and one probe-row ordinal per emitted pair. A row whose key is
    /// present emits the bucket of that key in insertion order, marks
    /// stripped. A row whose key is null or absent emits the null locator
    /// where `emit_unmatched` is set, and nothing otherwise. With
    /// `mark_matches` every key that a consumed row hits is marked. The probe
    /// stops after the first row that leaves at least `limit` pairs emitted
    /// and returns the number of rows consumed.
    pub fn probe(
        &mut self,
        hash_keys: &HashKeys,
        table_match: &mut Vec<ChunkId>,
        probe_match: &mut Vec<IdxSize>,
        mark_matches: bool,
        emit_unmatched: bool,
        limit: IdxSize,
    ) -> (r: IdxSize)
        requires
            old(self).wf(),
            hash_keys is RowEncoded,
            hash_keys.rows().len() <= IdxSize::MAX,
        ensures
            final(self).wf(),
            probe_result(
                old(self)@,
                final(self)@,
                hash_keys.rows(),
                mark_matches,
                emit_unmatched,
                limit as nat,
                raws(final(table_match)@),
                final(probe_match)@,
                r as int,
            ),
            final(table_match)@.len() == final(probe_match)@.len(),
            forall|k: int|
                0 <= k < final(table_match)@.len() ==> {
                    let cid = (#[trigger] final(table_match)@[k])@;
                    let row = hash_keys.rows()[final(probe_match)@[k] as int];
                    &&& final(probe_match)@[k] < r
                    &&& cid != NULL_RAW ==> !spec_is_marked(cid)
                    &&& row.1 is None ==> cid == NULL_RAW
                    &&& cid != NULL_RAW <==> row_hits(old(self)@.entries, row)
                },
            marks_kept(old(self)@.entries, final(self)@.entries),
            !mark_matches ==> final(self)@ == old(self)@,
    {
        match hash_keys {
            HashKeys::RowEncoded(keys) => {
                let r: IdxSize = self.probe_dispatch(
                    keys,
                    None,
                    table_match,
                    probe_match,
                    mark_matches,
                    emit_unmatched,
                    limit,
                );
                proof {
                    let start = old(self)@.entries;
                    let rows = hash_keys.rows();
                    lemma_matches_shape(start, rows, emit_unmatched, r as int);
                    lemma_mark_probed(start, rows, r as int, old(self)@.chunk_ctr);
                    lemma_marks_kept_refl(start);
                    assert(raws(table_match@).len() == table_match@.len());
                    assert forall|k: int| 0 <= k < table_match@.len() implies (
                    #[trigger] table_match@[k])@ == raws(table_match@)[k] by {}
                }
                r
            },
            HashKeys::Single(_) => unreached(),
        }
    }

    /// Probes the rows that `subset` selects from a batch, in the order of
    /// the subset. Everything is as in [`Self::probe`], except that row `k`
    /// of the walk is row `subset[k]` of the batch, and that the ordinals in
    /// `probe_match` count along the subset.
    pub fn probe_subset(
        &mut self,
        hash_keys: &HashKeys,
        subset: &[IdxSize],
        table_match: &mut Vec<ChunkId>,
        probe_match: &mut Vec<IdxSize>,
        mark_matches: bool,
        emit_unmatched: bool,
        limit: IdxSize,
    ) -> (r: IdxSize)
        requires
            old(self).wf(),
            hash_keys is RowEncoded,
            subset_in_bounds(hash_keys.rows(), subset@),
            subset@.len() <= IdxSize::MAX,
        ensures
            final(self).wf(),
            probe_result(
                old(self)@,
                final(self)@,
                gather(hash_keys.rows(), subset@),
                mark_matches,
                emit_unmatched,
                limit as nat,
                raws(final(table_match)@),
                final(probe_match)@,
                r as int,
            ),
            final(table_match)@.len() == final(probe_match)@.len(),
            forall|k: int|
                0 <= k < final(table_match)@.len() ==> {
                    let cid = (#[trigger] final(table_match)@[k])@;
                    let row = hash_keys.rows()[subset@[final(probe_match)@[k] as int] as int];
                    &&& final(probe_match)@[k] < r
                    &&& cid != NULL_RAW ==> !spec_is_marked(cid)
                    &&& row.1 is None ==> cid == NULL_RAW
                    &&& cid != NULL_RAW <==> row_hits(old(self)@.entries, row)
                },
            marks_kept(old(self)@.entries, final(self)@.entries),
            !mark_matches ==> final(self)@ == old(self)@,
    {
        match hash_keys {
            HashKeys::RowEncoded(keys) => {
                let r: IdxSize = self.probe_dispatch(
                    keys,
                    Some(subset),
                    table_match,
                    probe_match,
                    mark_matches,
                    emit_unmatched,
                    limit,
                );
                proof {
                    let start = old(self)@.entries;
                    let rows = gather(hash_keys.rows(), subset@);
                    lemma_matches_shape(start, rows, emit_unmatched, r as int);
                    lemma_mark_probed(start, rows, r as int, old(self)@.chunk_ctr);
                    lemma_marks_kept_refl(start);
                    assert(raws(table_match@).len() == table_match@.len());
                    assert forall|k: int| 0 <= k < table_match@.len() implies (
                    #[trigger] table_match@[k])@ == raws(table_match@)[k] by {}
                }
                r
            },
            HashKeys::Single(_) => unreached(),
        }
    }

    /// Appends to `out`, in insertion order of the keys, every locator of
    /// every key that carries no mark, marks stripped.
    pub fn unmarked_keys(&self, out: &mut Vec<ChunkId>)
        requires
            self.wf(),
        ensures
            raws(final(out)@) == raws(old(out)@) + unmarked_cells(
                self@.entries,
                self@.entries.len() as int,
            ),
    {
        let ghost entries: Seq<KeyEntry> = self@.entries;
        let ghost out0: Seq<u64> = raws(out@);
        let n: usize = self.buckets.len();
        let mut i: usize = 0;
        proof {
            assert(raws(out@) =~= out0 + unmarked_cells(entries, 0));
        }
        while i < n
            invariant
                i <= n,
                n == entries.len(),
                n == self.buckets@.len(),
                entries == self@.entries,
                self.wf(),
                raws(out@) == out0 + unmarked_cells(entries, i as int),
            decreases n - i,
        {
            let bucket: &[u64] = bucket_as_slice(&self.buckets[i]);
            let ghost cells: Seq<u64> = entries[i as int].cells;
            assert(cells.len() >= 1);
            let first: u64 = bucket[0];
            if !ChunkId::from_inner(first).is_marked() {
                let ghost out1: Seq<u64> = raws(out@);
                let len: usize = bucket.len();
                let mut j: usize = 0;
                proof {
                    assert(raws(out@) =~= out1 + stripped(cells).subrange(0, 0));
                }
                while j < len
                    invariant
                        j <= len,
                        len == cells.len(),
                        bucket@ == cells,
                        raws(out@) == out1 + stripped(cells).subrange(0, j as int),
                    decreases len - j,
                {
                    let raw: u64 = bucket[j];
                    let ghost out2: Seq<u64> = raws(out@);
                    out.push(ChunkId::from_inner(raw).strip_mark());
                    proof {
                        assert(raws(out@) =~= out2.push(spec_strip_mark(raw)));
                        assert(stripped(cells).subrange(0, j + 1) =~= stripped(cells).subrange(
                            0,
                            j as int,
                        ).push(spec_strip_mark(raw)));
                        assert(raws(out@) =~= out1 + stripped(cells).subrange(0, j + 1));
                    }
                    j += 1;
                }
                proof {
                    assert(stripped(cells).subrange(0, len as int) =~= stripped(cells));
                    assert(raws(out@) =~= out0 + unmarked_cells(entries, i + 1));
                }
            }
            i += 1;
        }
    }
}

impl Default for RowEncodedChunkedIdxTable {
    /// An empty table.
    fn default() -> (t: Self)
        ensures
            t.wf(),
            t@ == TableView::empty(),
    {
        Self::new()
    }
}

/// The indices of a subset, if one is given.
pub open spec fn spec_subset(subset: Option<&[IdxSize]>) -> Option<Seq<u32>> {
    match subset {
        Some(s) => Some(s@),
        None => None,
    }
}

} // verus!
