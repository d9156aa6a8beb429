//! The mathematical model of the table: what it holds, and what building,
//! probing and enumerating mean.
//!
//! A table is a sequence of key entries in insertion order. Each entry has a
//! hash, the key bytes and a bucket of raw 64-bit cells; bit 63 of the first
//! cell is the entry's mark.

use crate::chunk_id::{
    spec_chunk, spec_encode, spec_is_marked, spec_set_mark, spec_strip_mark, MAX_CHUNKS, NULL_RAW,
};
use crate::hash_keys::KeyRow;
use crate::idx_vec::MAX_BUCKET_CELLS;
use vstd::prelude::*;

verus! {

/// One distinct key with its bucket.
pub struct KeyEntry {
    pub hash: u64,
    pub key: Seq<u8>,
    pub cells: Seq<u64>,
}

/// The abstract state of a table.
pub struct TableView {
    /// The distinct keys, first inserted first.
    pub entries: Seq<KeyEntry>,
    /// The number of chunks inserted so far.
    pub chunk_ctr: nat,
}

/// Whether `e` is the entry of `(hash, key)`: both the hash and the bytes
/// have to agree.
pub open spec fn holds_key(e: KeyEntry, hash: u64, key: Seq<u8>) -> bool {
    e.hash == hash && e.key == key
}

/// Whether some entry is the entry of `(hash, key)`.
pub open spec fn has_key(entries: Seq<KeyEntry>, hash: u64, key: Seq<u8>) -> bool {
    exists|i: int| 0 <= i < entries.len() && holds_key(#[trigger] entries[i], hash, key)
}

/// The position of an entry of `(hash, key)`; meaningful where there is one.
pub open spec fn key_index(entries: Seq<KeyEntry>, hash: u64, key: Seq<u8>) -> int {
    choose|i: int| 0 <= i < entries.len() && holds_key(#[trigger] entries[i], hash, key)
}

/// The bucket stored under `(hash, key)`, if the key is present.
pub open spec fn bucket_of(entries: Seq<KeyEntry>, hash: u64, key: Seq<u8>) -> Option<Seq<u64>> {
    if has_key(entries, hash, key) {
        Some(entries[key_index(entries, hash, key)].cells)
    } else {
        None
    }
}

/// No two entries are entries of the same `(hash, key)`.
pub open spec fn keys_distinct(entries: Seq<KeyEntry>) -> bool {
    forall|i: int, j: int|
        #![trigger entries[i], entries[j]]
        0 <= i < j < entries.len() ==> !holds_key(entries[i], entries[j].hash, entries[j].key)
}

/// Every bucket is non-empty, only a first cell may carry the mark, and every
/// cell names a chunk that was inserted.
pub open spec fn buckets_wf(entries: Seq<KeyEntry>, chunk_ctr: nat) -> bool {
    forall|i: int|
        0 <= i < entries.len() ==> {
            &&& (#[trigger] entries[i]).cells.len() >= 1
            &&& forall|j: int|
                1 <= j < entries[i].cells.len() ==> !spec_is_marked(
                    #[trigger] entries[i].cells[j],
                )
            &&& forall|j: int|
                0 <= j < entries[i].cells.len() ==> spec_chunk(#[trigger] entries[i].cells[j])
                    < chunk_ctr
        }
}

impl TableView {
    /// The state of a table into which nothing was inserted.
    pub open spec fn empty() -> TableView {
        TableView { entries: Seq::empty(), chunk_ctr: 0 }
    }

    /// The invariant of every table.
    pub open spec fn wf(self) -> bool {
        &&& keys_distinct(self.entries)
        &&& buckets_wf(self.entries, self.chunk_ctr)
        &&& self.chunk_ctr <= MAX_CHUNKS
        &&& self.entries.len() <= u32::MAX
    }

    /// Whether the entry at `i` carries the mark.
    pub open spec fn marked(self, i: int) -> bool {
        spec_is_marked(self.entries[i].cells[0])
    }
}

/// The cells of a bucket with bit 63 cleared.
pub open spec fn stripped(cells: Seq<u64>) -> Seq<u64> {
    cells.map_values(|c: u64| spec_strip_mark(c))
}

/// `e` with one more cell at the end of its bucket.
pub open spec fn push_cell(e: KeyEntry, cid: u64) -> KeyEntry {
    KeyEntry { hash: e.hash, key: e.key, cells: e.cells.push(cid) }
}

/// `e` with the mark set on its first cell.
pub open spec fn mark_entry(e: KeyEntry) -> KeyEntry {
    KeyEntry { hash: e.hash, key: e.key, cells: e.cells.update(0, spec_set_mark(e.cells[0])) }
}

/// Building, one row: the locator joins the bucket of its key, or founds a
/// new bucket at the end of the table.
pub open spec fn insert_row(entries: Seq<KeyEntry>, hash: u64, key: Seq<u8>, cid: u64) -> Seq<
    KeyEntry,
> {
    if has_key(entries, hash, key) {
        let i = key_index(entries, hash, key);
        entries.update(i, push_cell(entries[i], cid))
    } else {
        entries.push(KeyEntry { hash, key, cells: seq![cid] })
    }
}

/// Building, the first `n` rows of a chunk with ordinal `chunk`, in row
/// order. Rows with a null key are skipped.
pub open spec fn insert_rows(entries: Seq<KeyEntry>, rows: Seq<KeyRow>, chunk: u32, n: int) -> Seq<
    KeyEntry,
>
    decreases n,
{
    if n <= 0 {
        entries
    } else {
        let before = insert_rows(entries, rows, chunk, n - 1);
        match rows[n - 1].1 {
            Some(key) => insert_row(before, rows[n - 1].0, key, spec_encode(chunk, (n - 1) as u32)),
            None => before,
        }
    }
}

/// Whether a probe row finds a bucket: its key is not null and is present.
pub open spec fn row_hits(entries: Seq<KeyEntry>, row: KeyRow) -> bool {
    row.1 matches Some(key) && has_key(entries, row.0, key)
}

/// Probing, one row: the locators emitted for it. A hit emits the bucket in
/// insertion order, marks stripped; a miss or a null key emits the null
/// locator where unmatched rows are asked for, and nothing otherwise.
pub open spec fn row_matches(entries: Seq<KeyEntry>, row: KeyRow, emit_unmatched: bool) -> Seq<
    u64,
> {
    if row_hits(entries, row) {
        stripped(entries[key_index(entries, row.0, row.1->0)].cells)
    } else if emit_unmatched {
        seq![NULL_RAW]
    } else {
        Seq::empty()
    }
}

/// Probing, the first `n` rows: the locators emitted, in probe order.
pub open spec fn table_matches(
    entries: Seq<KeyEntry>,
    rows: Seq<KeyRow>,
    emit_unmatched: bool,
    n: int,
) -> Seq<u64>
    decreases n,
{
    if n <= 0 {
        Seq::empty()
    } else {
        table_matches(entries, rows, emit_unmatched, n - 1) + row_matches(
            entries,
            rows[n - 1],
            emit_unmatched,
        )
    }
}

/// Probing, the first `n` rows: for every emitted locator, the ordinal of the
/// probe row that it was emitted for.
pub open spec fn probe_matches(
    entries: Seq<KeyEntry>,
    rows: Seq<KeyRow>,
    emit_unmatched: bool,
    n: int,
) -> Seq<u32>
    decreases n,
{
    if n <= 0 {
        Seq::empty()
    } else {
        probe_matches(entries, rows, emit_unmatched, n - 1) + Seq::new(
            row_matches(entries, rows[n - 1], emit_unmatched).len(),
            |k: int| (n - 1) as u32,
        )
    }
}

/// Whether a probe under `limit` consumes exactly `r` rows: it stops after
/// the first row that leaves at least `limit` locators emitted, and at the
/// end of the input otherwise. At most one `r` qualifies.
pub open spec fn rows_consumed(
    entries: Seq<KeyEntry>,
    rows: Seq<KeyRow>,
    emit_unmatched: bool,
    limit: nat,
    r: int,
) -> bool {
    &&& 0 <= r <= rows.len()
    &&& rows.len() > 0 ==> r >= 1
    &&& forall|q: int|
        1 <= q < r ==> (#[trigger] table_matches(entries, rows, emit_unmatched, q)).len() < limit
    &&& r < rows.len() ==> table_matches(entries, rows, emit_unmatched, r).len() >= limit
}

/// Marking, one key: the entry of `(hash, key)`, if there is one, has its
/// mark set.
pub open spec fn mark_key(entries: Seq<KeyEntry>, hash: u64, key: Seq<u8>) -> Seq<KeyEntry> {
    if has_key(entries, hash, key) {
        let i = key_index(entries, hash, key);
        entries.update(i, mark_entry(entries[i]))
    } else {
        entries
    }
}

/// Whether one of the first `n` probe rows carries the key `(hash, key)`.
pub open spec fn key_probed(rows: Seq<KeyRow>, n: int, hash: u64, key: Seq<u8>) -> bool {
    exists|j: int| 0 <= j < n && j < rows.len() && #[trigger] rows[j] == (hash, Some(key))
}

/// Marking, the first `n` probe rows: every entry whose key is among them
/// has its mark set, and nothing else changes.
pub open spec fn mark_probed(entries: Seq<KeyEntry>, rows: Seq<KeyRow>, n: int) -> Seq<KeyEntry> {
    Seq::new(
        entries.len(),
        |i: int|
            if key_probed(rows, n, entries[i].hash, entries[i].key) {
                mark_entry(entries[i])
            } else {
                entries[i]
            },
    )
}

/// The locators of the first `n` entries that do not carry the mark, in
/// insertion order, marks stripped.
pub open spec fn unmarked_cells(entries: Seq<KeyEntry>, n: int) -> Seq<u64>
    decreases n,
{
    if n <= 0 {
        Seq::empty()
    } else if spec_is_marked(entries[n - 1].cells[0]) {
        unmarked_cells(entries, n - 1)
    } else {
        unmarked_cells(entries, n - 1) + stripped(entries[n - 1].cells)
    }
}

/// What a probe of `rows` does and returns. `r` rows are consumed; the two
/// output columns hold what those rows emit; with `mark_matches` the keys
/// among them are marked, and nothing else in the table changes.
pub open spec fn probe_result(
    before: TableView,
    after: TableView,
    rows: Seq<KeyRow>,
    mark_matches: bool,
    emit_unmatched: bool,
    limit: nat,
    table_match: Seq<u64>,
    probe_match: Seq<u32>,
    r: int,
) -> bool {
    &&& rows_consumed(before.entries, rows, emit_unmatched, limit, r)
    &&& table_match == table_matches(before.entries, rows, emit_unmatched, r)
    &&& probe_match == probe_matches(before.entries, rows, emit_unmatched, r)
    &&& after.chunk_ctr == before.chunk_ctr
    &&& after.entries == if mark_matches {
        mark_probed(before.entries, rows, r)
    } else {
        before.entries
    }
}

/// Whether `after` still has every entry of `before` at its place, with the
/// same key and with a bucket that starts with the old one.
pub open spec fn extends(before: Seq<KeyEntry>, after: Seq<KeyEntry>) -> bool {
    &&& before.len() <= after.len()
    &&& forall|i: int|
        0 <= i < before.len() ==> {
            &&& holds_key(#[trigger] after[i], before[i].hash, before[i].key)
            &&& before[i].cells.is_prefix_of(after[i].cells)
        }
}

/// Whether every bucket of `after` has at most `n` cells more than the
/// bucket of `before` at its place, or at most `n` cells where it is new.
pub open spec fn grown_by(before: Seq<KeyEntry>, after: Seq<KeyEntry>, n: int) -> bool {
    forall|i: int|
        0 <= i < after.len() ==> (#[trigger] after[i]).cells.len() <= n + (if i < before.len() {
            before[i].cells.len()
        } else {
            0
        })
}

/// Whether every entry of `before` is still at its place in `after`, under
/// the same key, and marked if it was marked.
pub open spec fn marks_kept(before: Seq<KeyEntry>, after: Seq<KeyEntry>) -> bool {
    &&& before.len() <= after.len()
    &&& forall|i: int|
        0 <= i < before.len() ==> {
            &&& holds_key(#[trigger] after[i], before[i].hash, before[i].key)
            &&& spec_is_marked(before[i].cells[0]) ==> spec_is_marked(after[i].cells[0])
        }
}

/// Whether every bucket is short enough to be held.
pub open spec fn buckets_fit(entries: Seq<KeyEntry>) -> bool {
    forall|i: int|
        0 <= i < entries.len() ==> (#[trigger] entries[i]).cells.len() <= MAX_BUCKET_CELLS
}

/// Whether every key of a batch has a length that fits the directory's
/// 32-bit measure.
pub open spec fn keys_fit(rows: Seq<KeyRow>) -> bool {
    forall|i: int|
        0 <= i < rows.len() ==> match (#[trigger] rows[i]).1 {
            Some(key) => key.len() <= u32::MAX,
            None => true,
        }
}

/// The locators of the first `n` entries that neither carry the mark nor
/// have their key among the probe rows, in insertion order, marks stripped.
pub open spec fn unmatched_cells(entries: Seq<KeyEntry>, rows: Seq<KeyRow>, n: int) -> Seq<u64>
    decreases n,
{
    if n <= 0 {
        Seq::empty()
    } else if spec_is_marked(entries[n - 1].cells[0]) || key_probed(
        rows,
        rows.len() as int,
        entries[n - 1].hash,
        entries[n - 1].key,
    ) {
        unmatched_cells(entries, rows, n - 1)
    } else {
        unmatched_cells(entries, rows, n - 1) + stripped(entries[n - 1].cells)
    }
}

/// Probe-row ordinals moved up by `by`: what the ordinals of a resumed probe
/// are in the numbering of the whole input.
pub open spec fn shifted(ordinals: Seq<u32>, by: int) -> Seq<u32> {
    ordinals.map_values(|p: u32| (p + by) as u32)
}

/// The rows that a subset selects from a batch, in the order of the subset.
pub open spec fn gather(rows: Seq<KeyRow>, subset: Seq<u32>) -> Seq<KeyRow> {
    Seq::new(subset.len(), |k: int| rows[subset[k] as int])
}

/// Whether every index of a subset names a row of the batch.
pub open spec fn subset_in_bounds(rows: Seq<KeyRow>, subset: Seq<u32>) -> bool {
    forall|k: int| 0 <= k < subset.len() ==> (#[trigger] subset[k]) < rows.len()
}

/// The rows that a probe walks: the whole batch, or the rows that a subset
/// selects from it.
pub open spec fn selected(rows: Seq<KeyRow>, subset: Option<Seq<u32>>) -> Seq<KeyRow> {
    match subset {
        Some(s) => gather(rows, s),
        None => rows,
    }
}

} // verus!
