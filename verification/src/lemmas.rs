//! Facts about the model that the table's proofs rest on.

use crate::chunk_id::{
    lemma_encode, lemma_set_mark, lemma_strip_mark, spec_chunk, spec_encode, spec_is_marked,
    spec_strip_mark, NULL_RAW,
};
use crate::hash_keys::KeyRow;
use crate::model::{
    bucket_of, buckets_wf, extends, grown_by, has_key, holds_key, insert_row, insert_rows,
    key_index, key_probed, keys_distinct, mark_entry, mark_key, mark_probed, marks_kept,
    probe_matches, push_cell, row_hits, row_matches, rows_consumed, shifted, stripped,
    table_matches, unmarked_cells, unmatched_cells, KeyEntry,
};
use vstd::prelude::*;

verus! {

/// Among distinct keys, the entry that holds a key is the one that
/// `key_index` names.
pub proof fn lemma_key_index(entries: Seq<KeyEntry>, hash: u64, key: Seq<u8>, i: int)
    requires
        keys_distinct(entries),
        0 <= i < entries.len(),
        holds_key(entries[i], hash, key),
    ensures
        has_key(entries, hash, key),
        key_index(entries, hash, key) == i,
        bucket_of(entries, hash, key) == Some(entries[i].cells),
{
    let j = key_index(entries, hash, key);
    assert(0 <= j < entries.len() && holds_key(entries[j], hash, key));
    if j < i {
        assert(!holds_key(entries[j], entries[i].hash, entries[i].key));
    } else if i < j {
        assert(!holds_key(entries[i], entries[j].hash, entries[j].key));
    }
}

/// Inserting one row keeps the table well formed, extends it, grows it by at
/// most one entry, and puts the locator into the bucket of its key.
pub proof fn lemma_insert_row(
    entries: Seq<KeyEntry>,
    hash: u64,
    key: Seq<u8>,
    cid: u64,
    chunk_ctr: nat,
)
    requires
        keys_distinct(entries),
        buckets_wf(entries, chunk_ctr),
        !spec_is_marked(cid),
        spec_chunk(cid) < chunk_ctr,
    ensures
        keys_distinct(insert_row(entries, hash, key, cid)),
        buckets_wf(insert_row(entries, hash, key, cid), chunk_ctr),
        extends(entries, insert_row(entries, hash, key, cid)),
        insert_row(entries, hash, key, cid).len() == entries.len() + (if has_key(
            entries,
            hash,
            key,
        ) {
            0int
        } else {
            1int
        }),
        bucket_of(insert_row(entries, hash, key, cid), hash, key) matches Some(cells)
            && cells.last() == cid,
        grown_by(entries, insert_row(entries, hash, key, cid), 1),
{
    let after = insert_row(entries, hash, key, cid);
    if has_key(entries, hash, key) {
        let i = key_index(entries, hash, key);
        assert(after[i] == push_cell(entries[i], cid));
        assert forall|a: int, b: int| 0 <= a < b < after.len() implies !holds_key(
            after[a],
            after[b].hash,
            after[b].key,
        ) by {
            assert(!holds_key(entries[a], entries[b].hash, entries[b].key));
        }
        assert forall|a: int| 0 <= a < after.len() implies {
            &&& (#[trigger] after[a]).cells.len() >= 1
            &&& forall|j: int|
                1 <= j < after[a].cells.len() ==> !spec_is_marked(#[trigger] after[a].cells[j])
            &&& forall|j: int|
                0 <= j < after[a].cells.len() ==> spec_chunk(#[trigger] after[a].cells[j])
                    < chunk_ctr
        } by {
            assert(entries[a].cells.len() >= 1);
            assert forall|j: int| 1 <= j < after[a].cells.len() implies !spec_is_marked(
                #[trigger] after[a].cells[j],
            ) by {
                if j < entries[a].cells.len() {
                    assert(after[a].cells[j] == entries[a].cells[j]);
                }
            }
            assert forall|j: int| 0 <= j < after[a].cells.len() implies spec_chunk(
                #[trigger] after[a].cells[j],
            ) < chunk_ctr by {
                if j < entries[a].cells.len() {
                    assert(after[a].cells[j] == entries[a].cells[j]);
                }
            }
        }
        assert forall|a: int| 0 <= a < entries.len() implies {
            &&& holds_key(#[trigger] after[a], entries[a].hash, entries[a].key)
            &&& entries[a].cells.is_prefix_of(after[a].cells)
        } by {}
        lemma_key_index(after, hash, key, i);
    } else {
        let i = entries.len() as int;
        assert(after[i] == KeyEntry { hash, key, cells: seq![cid] });
        assert forall|a: int, b: int| 0 <= a < b < after.len() implies !holds_key(
            after[a],
            after[b].hash,
            after[b].key,
        ) by {
            if b < entries.len() {
                assert(!holds_key(entries[a], entries[b].hash, entries[b].key));
            } else {
                assert(!holds_key(entries[a], hash, key));
            }
        }
        assert forall|a: int| 0 <= a < after.len() implies {
            &&& (#[trigger] after[a]).cells.len() >= 1
            &&& forall|j: int|
                1 <= j < after[a].cells.len() ==> !spec_is_marked(#[trigger] after[a].cells[j])
            &&& forall|j: int|
                0 <= j < after[a].cells.len() ==> spec_chunk(#[trigger] after[a].cells[j])
                    < chunk_ctr
        } by {
            if a < entries.len() {
                assert(after[a] == entries[a]);
            }
        }
        assert forall|a: int| 0 <= a < entries.len() implies {
            &&& holds_key(#[trigger] after[a], entries[a].hash, entries[a].key)
            &&& entries[a].cells.is_prefix_of(after[a].cells)
        } by {
            assert(after[a] == entries[a]);
        }
        lemma_key_index(after, hash, key, i);
    }
}

/// Extending is transitive.
pub proof fn lemma_extends_trans(a: Seq<KeyEntry>, b: Seq<KeyEntry>, c: Seq<KeyEntry>)
    requires
        extends(a, b),
        extends(b, c),
    ensures
        extends(a, c),
{
    assert forall|i: int| 0 <= i < a.len() implies {
        &&& holds_key(#[trigger] c[i], a[i].hash, a[i].key)
        &&& a[i].cells.is_prefix_of(c[i].cells)
    } by {
        assert(holds_key(b[i], a[i].hash, a[i].key));
        assert(holds_key(c[i], b[i].hash, b[i].key));
        assert(a[i].cells.is_prefix_of(b[i].cells));
        assert(b[i].cells.is_prefix_of(c[i].cells));
        assert(a[i].cells =~= c[i].cells.subrange(0, a[i].cells.len() as int)) by {
            assert forall|j: int| 0 <= j < a[i].cells.len() implies a[i].cells[j]
                == c[i].cells[j] by {
                assert(a[i].cells[j] == b[i].cells[j]);
                assert(b[i].cells[j] == c[i].cells[j]);
            }
        }
    }
}

/// Inserting the first `n` rows of a chunk keeps the table well formed,
/// extends it, and adds at most one entry per row.
pub proof fn lemma_insert_rows(
    entries: Seq<KeyEntry>,
    rows: Seq<KeyRow>,
    chunk: u32,
    n: int,
    chunk_ctr: nat,
)
    requires
        keys_distinct(entries),
        buckets_wf(entries, chunk_ctr),
        chunk < chunk_ctr,
        chunk < 0x8000_0000,
        0 <= n <= rows.len(),
        n <= 0x1_0000_0000,
    ensures
        keys_distinct(insert_rows(entries, rows, chunk, n)),
        buckets_wf(insert_rows(entries, rows, chunk, n), chunk_ctr),
        extends(entries, insert_rows(entries, rows, chunk, n)),
        insert_rows(entries, rows, chunk, n).len() <= entries.len() + n,
        grown_by(entries, insert_rows(entries, rows, chunk, n), n),
        forall|m: int|
            0 <= m <= n ==> extends(
                #[trigger] insert_rows(entries, rows, chunk, m),
                insert_rows(entries, rows, chunk, n),
            ),
    decreases n,
{
    let after = insert_rows(entries, rows, chunk, n);
    if n <= 0 {
        assert(extends(entries, entries)) by {
            assert forall|i: int| 0 <= i < entries.len() implies entries[i].cells.is_prefix_of(
                entries[i].cells,
            ) by {
                assert(entries[i].cells =~= entries[i].cells.subrange(
                    0,
                    entries[i].cells.len() as int,
                ));
            }
        }
    } else {
        lemma_insert_rows(entries, rows, chunk, n - 1, chunk_ctr);
        let before = insert_rows(entries, rows, chunk, n - 1);
        match rows[n - 1].1 {
            Some(key) => {
                let cid = spec_encode(chunk, (n - 1) as u32);
                lemma_encode(chunk, (n - 1) as u32);
                lemma_insert_row(before, rows[n - 1].0, key, cid, chunk_ctr);
            },
            None => {},
        }
        assert(extends(before, after)) by {
            if rows[n - 1].1 is None {
                assert forall|i: int| 0 <= i < before.len() implies before[i].cells.is_prefix_of(
                    before[i].cells,
                ) by {
                    assert(before[i].cells =~= before[i].cells.subrange(
                        0,
                        before[i].cells.len() as int,
                    ));
                }
            }
        }
        lemma_extends_trans(entries, before, after);
        assert(grown_by(entries, after, n)) by {
            assert forall|i: int| 0 <= i < after.len() implies (#[trigger] after[i]).cells.len()
                <= n + (if i < entries.len() {
                entries[i].cells.len()
            } else {
                0
            }) by {
                if rows[n - 1].1 is Some {
                    assert(grown_by(before, after, 1));
                }
                if i < before.len() {
                    assert(before[i].cells.len() <= n - 1 + (if i < entries.len() {
                        entries[i].cells.len()
                    } else {
                        0
                    }));
                }
            }
        }
        assert(extends(after, after)) by {
            assert forall|i: int| 0 <= i < after.len() implies after[i].cells.is_prefix_of(
                after[i].cells,
            ) by {
                assert(after[i].cells =~= after[i].cells.subrange(0, after[i].cells.len() as int));
            }
        }
        assert forall|m: int| 0 <= m <= n implies extends(
            #[trigger] insert_rows(entries, rows, chunk, m),
            after,
        ) by {
            if m < n {
                lemma_extends_trans(insert_rows(entries, rows, chunk, m), before, after);
            }
        }
    }
}

/// Setting the mark of an entry keeps its key, the length of its bucket and
/// the stripped cells.
pub proof fn lemma_mark_entry(e: KeyEntry)
    requires
        e.cells.len() >= 1,
    ensures
        mark_entry(e).hash == e.hash,
        mark_entry(e).key == e.key,
        mark_entry(e).cells.len() == e.cells.len(),
        spec_is_marked(mark_entry(e).cells[0]),
        stripped(mark_entry(e).cells) == stripped(e.cells),
        mark_entry(mark_entry(e)) == mark_entry(e),
        spec_is_marked(e.cells[0]) ==> mark_entry(e) == e,
{
    lemma_set_mark(e.cells[0]);
    assert(stripped(mark_entry(e).cells) =~= stripped(e.cells));
    assert(mark_entry(mark_entry(e)).cells =~= mark_entry(e).cells);
    if spec_is_marked(e.cells[0]) {
        assert(mark_entry(e).cells =~= e.cells);
    }
}

/// Marking the keys among probe rows keeps every key at its place and the
/// table well formed; entries differ from before in the mark only.
pub proof fn lemma_mark_probed(entries: Seq<KeyEntry>, rows: Seq<KeyRow>, n: int, chunk_ctr: nat)
    requires
        keys_distinct(entries),
        buckets_wf(entries, chunk_ctr),
    ensures
        keys_distinct(mark_probed(entries, rows, n)),
        buckets_wf(mark_probed(entries, rows, n), chunk_ctr),
        marks_kept(entries, mark_probed(entries, rows, n)),
        mark_probed(entries, rows, n).len() == entries.len(),
        forall|i: int|
            0 <= i < entries.len() ==> {
                &&& holds_key(
                    #[trigger] mark_probed(entries, rows, n)[i],
                    entries[i].hash,
                    entries[i].key,
                )
                &&& stripped(mark_probed(entries, rows, n)[i].cells) == stripped(entries[i].cells)
                &&& spec_is_marked(mark_probed(entries, rows, n)[i].cells[0]) <==> (spec_is_marked(
                    entries[i].cells[0],
                ) || key_probed(rows, n, entries[i].hash, entries[i].key))
            },
{
    let after = mark_probed(entries, rows, n);
    assert forall|i: int| 0 <= i < entries.len() implies {
        &&& holds_key(#[trigger] after[i], entries[i].hash, entries[i].key)
        &&& after[i].cells.len() == entries[i].cells.len()
        &&& stripped(after[i].cells) == stripped(entries[i].cells)
        &&& spec_is_marked(after[i].cells[0]) <==> (spec_is_marked(entries[i].cells[0])
            || key_probed(rows, n, entries[i].hash, entries[i].key))
        &&& forall|j: int|
            1 <= j < after[i].cells.len() ==> after[i].cells[j] == entries[i].cells[j]
        &&& spec_chunk(after[i].cells[0]) == spec_chunk(entries[i].cells[0])
    } by {
        assert(entries[i].cells.len() >= 1);
        lemma_mark_entry(entries[i]);
        lemma_set_mark(entries[i].cells[0]);
    }
    assert forall|a: int, b: int| 0 <= a < b < after.len() implies !holds_key(
        after[a],
        after[b].hash,
        after[b].key,
    ) by {
        assert(!holds_key(entries[a], entries[b].hash, entries[b].key));
    }
    assert forall|i: int| 0 <= i < after.len() implies {
        &&& (#[trigger] after[i]).cells.len() >= 1
        &&& forall|j: int|
            1 <= j < after[i].cells.len() ==> !spec_is_marked(#[trigger] after[i].cells[j])
        &&& forall|j: int|
            0 <= j < after[i].cells.len() ==> spec_chunk(#[trigger] after[i].cells[j]) < chunk_ctr
    } by {
        assert(entries[i].cells.len() >= 1);
        assert forall|j: int| 1 <= j < after[i].cells.len() implies !spec_is_marked(
            #[trigger] after[i].cells[j],
        ) by {
            assert(after[i].cells[j] == entries[i].cells[j]);
        }
        assert forall|j: int| 0 <= j < after[i].cells.len() implies spec_chunk(
            #[trigger] after[i].cells[j],
        ) < chunk_ctr by {
            if j >= 1 {
                assert(after[i].cells[j] == entries[i].cells[j]);
            } else {
                assert(spec_chunk(entries[i].cells[0]) < chunk_ctr);
            }
        }
    }
}

/// Marks change neither which keys are present nor what a probe row emits.
pub proof fn lemma_marked_row_matches(
    entries: Seq<KeyEntry>,
    rows: Seq<KeyRow>,
    n: int,
    row: KeyRow,
    emit_unmatched: bool,
    chunk_ctr: nat,
)
    requires
        keys_distinct(entries),
        buckets_wf(entries, chunk_ctr),
    ensures
        row_hits(mark_probed(entries, rows, n), row) == row_hits(entries, row),
        row_hits(entries, row) ==> key_index(mark_probed(entries, rows, n), row.0, row.1->0)
            == key_index(entries, row.0, row.1->0),
        row_matches(mark_probed(entries, rows, n), row, emit_unmatched) == row_matches(
            entries,
            row,
            emit_unmatched,
        ),
{
    let after = mark_probed(entries, rows, n);
    lemma_mark_probed(entries, rows, n, chunk_ctr);
    match row.1 {
        Some(key) => {
            if has_key(entries, row.0, key) {
                let i = key_index(entries, row.0, key);
                assert(holds_key(after[i], row.0, key));
                lemma_key_index(after, row.0, key, i);
            }
            if has_key(after, row.0, key) {
                let i = key_index(after, row.0, key);
                assert(holds_key(after[i], entries[i].hash, entries[i].key));
                assert(holds_key(entries[i], row.0, key));
            }
        },
        None => {},
    }
}

/// Probing one more row marks the key of that row, and no other.
pub proof fn lemma_mark_probed_step(
    entries: Seq<KeyEntry>,
    rows: Seq<KeyRow>,
    n: int,
    chunk_ctr: nat,
)
    requires
        keys_distinct(entries),
        buckets_wf(entries, chunk_ctr),
        0 <= n < rows.len(),
    ensures
        mark_probed(entries, rows, n + 1) == match rows[n].1 {
            Some(key) => mark_key(mark_probed(entries, rows, n), rows[n].0, key),
            None => mark_probed(entries, rows, n),
        },
{
    let before = mark_probed(entries, rows, n);
    let after = mark_probed(entries, rows, n + 1);
    lemma_mark_probed(entries, rows, n, chunk_ctr);
    assert forall|i: int| 0 <= i < entries.len() implies (key_probed(
        rows,
        n + 1,
        entries[i].hash,
        entries[i].key,
    ) <==> key_probed(rows, n, entries[i].hash, entries[i].key) || rows[n] == (
        entries[i].hash,
        Some(entries[i].key),
    )) by {
        let h = entries[i].hash;
        let k = entries[i].key;
        if key_probed(rows, n + 1, h, k) {
            let j = choose|j: int|
                0 <= j < n + 1 && j < rows.len() && #[trigger] rows[j] == (h, Some(k));
            if j < n {
                assert(key_probed(rows, n, h, k));
            }
        }
        if key_probed(rows, n, h, k) {
            let j = choose|j: int|
                0 <= j < n && j < rows.len() && #[trigger] rows[j] == (h, Some(k));
            assert(0 <= j < n + 1 && rows[j] == (h, Some(k)));
        }
        if rows[n] == (h, Some(k)) {
            assert(0 <= n < n + 1 && rows[n] == (h, Some(k)));
        }
    }
    match rows[n].1 {
        Some(key) => {
            let target = mark_key(before, rows[n].0, key);
            lemma_marked_row_matches(entries, rows, n, rows[n], false, chunk_ctr);
            if has_key(entries, rows[n].0, key) {
                let w = key_index(entries, rows[n].0, key);
                assert(key_index(before, rows[n].0, key) == w);
                assert(rows[n] == (entries[w].hash, Some(entries[w].key)));
                assert forall|i: int| 0 <= i < entries.len() implies after[i] == target[i] by {
                    assert(entries[i].cells.len() >= 1);
                    lemma_mark_entry(entries[i]);
                    if i == w {
                    } else {
                        if rows[n] == (entries[i].hash, Some(entries[i].key)) {
                            lemma_key_index(entries, rows[n].0, key, i);
                        }
                    }
                }
                assert(after =~= target);
            } else {
                assert forall|i: int| 0 <= i < entries.len() implies after[i] == target[i] by {
                    if rows[n] == (entries[i].hash, Some(entries[i].key)) {
                        assert(holds_key(entries[i], rows[n].0, key));
                    }
                }
                assert(after =~= target);
            }
        },
        None => {
            assert(after =~= before);
        },
    }
}

/// The two output columns of a probe have one length; every locator is the
/// null locator or free of the mark; every ordinal names a consumed row; and
/// a row emits the null locator exactly where it does not hit.
pub proof fn lemma_matches_shape(
    entries: Seq<KeyEntry>,
    rows: Seq<KeyRow>,
    emit_unmatched: bool,
    n: int,
)
    requires
        0 <= n <= rows.len(),
        n <= 0x1_0000_0000,
    ensures
        table_matches(entries, rows, emit_unmatched, n).len() == probe_matches(
            entries,
            rows,
            emit_unmatched,
            n,
        ).len(),
        forall|k: int|
            #![trigger table_matches(entries, rows, emit_unmatched, n)[k]]
            #![trigger probe_matches(entries, rows, emit_unmatched, n)[k]]
            0 <= k < table_matches(entries, rows, emit_unmatched, n).len() ==> {
                let cid = table_matches(entries, rows, emit_unmatched, n)[k];
                let p = probe_matches(entries, rows, emit_unmatched, n)[k];
                &&& 0 <= p < n
                &&& cid != NULL_RAW ==> !spec_is_marked(cid)
                &&& cid != NULL_RAW <==> row_hits(entries, rows[p as int])
                &&& cid == NULL_RAW ==> emit_unmatched
            },
    decreases n,
{
    if n > 0 {
        lemma_matches_shape(entries, rows, emit_unmatched, n - 1);
        let tm0 = table_matches(entries, rows, emit_unmatched, n - 1);
        let pm0 = probe_matches(entries, rows, emit_unmatched, n - 1);
        let tm = table_matches(entries, rows, emit_unmatched, n);
        let pm = probe_matches(entries, rows, emit_unmatched, n);
        let row = rows[n - 1];
        let m = row_matches(entries, row, emit_unmatched);
        assert forall|k: int|
            #![trigger tm[k]]
            #![trigger pm[k]]
            0 <= k < tm.len() implies {
            let cid = tm[k];
            let p = pm[k];
            &&& 0 <= p < n
            &&& cid != NULL_RAW ==> !spec_is_marked(cid)
            &&& cid != NULL_RAW <==> row_hits(entries, rows[p as int])
            &&& cid == NULL_RAW ==> emit_unmatched
        } by {
            if k < tm0.len() {
                assert(tm[k] == tm0[k]);
                assert(pm[k] == pm0[k]);
            } else {
                let j = k - tm0.len();
                assert(tm[k] == m[j]);
                assert(pm[k] == (n - 1) as u32);
                if row_hits(entries, row) {
                    let cells = entries[key_index(entries, row.0, row.1->0)].cells;
                    assert(m[j] == spec_strip_mark(cells[j]));
                    lemma_strip_mark(cells[j]);
                }
            }
        }
    }
}

/// Marking one key keeps the table well formed and every key at its place.
pub proof fn lemma_mark_key(entries: Seq<KeyEntry>, hash: u64, key: Seq<u8>, chunk_ctr: nat)
    requires
        keys_distinct(entries),
        buckets_wf(entries, chunk_ctr),
    ensures
        keys_distinct(mark_key(entries, hash, key)),
        buckets_wf(mark_key(entries, hash, key), chunk_ctr),
        mark_key(entries, hash, key).len() == entries.len(),
{
    let rows: Seq<KeyRow> = seq![(hash, Some(key))];
    assert(mark_probed(entries, rows, 0) =~= entries) by {
        assert forall|i: int| 0 <= i < entries.len() implies !key_probed(
            rows,
            0,
            entries[i].hash,
            entries[i].key,
        ) by {}
    }
    lemma_mark_probed_step(entries, rows, 0, chunk_ctr);
    lemma_mark_probed(entries, rows, 1, chunk_ctr);
}

/// A table keeps its own marks.
pub proof fn lemma_marks_kept_refl(entries: Seq<KeyEntry>)
    ensures
        marks_kept(entries, entries),
{
}

/// A table that extends another keeps its marks: a bucket that only grows
/// keeps its first cell.
pub proof fn lemma_extends_keeps_marks(before: Seq<KeyEntry>, after: Seq<KeyEntry>, chunk_ctr: nat)
    requires
        buckets_wf(before, chunk_ctr),
        extends(before, after),
    ensures
        marks_kept(before, after),
{
    assert forall|i: int| 0 <= i < before.len() implies {
        &&& holds_key(#[trigger] after[i], before[i].hash, before[i].key)
        &&& spec_is_marked(before[i].cells[0]) ==> spec_is_marked(after[i].cells[0])
    } by {
        assert(before[i].cells.len() >= 1);
        assert(before[i].cells.is_prefix_of(after[i].cells));
        assert(before[i].cells[0] == after[i].cells[0]);
    }
}

/// At most one number of consumed rows qualifies for a probe.
pub proof fn lemma_rows_consumed_unique(
    entries: Seq<KeyEntry>,
    rows: Seq<KeyRow>,
    emit_unmatched: bool,
    limit: nat,
    r1: int,
    r2: int,
)
    requires
        rows_consumed(entries, rows, emit_unmatched, limit, r1),
        rows_consumed(entries, rows, emit_unmatched, limit, r2),
    ensures
        r1 == r2,
{
    if r1 < r2 {
        assert(table_matches(entries, rows, emit_unmatched, r1).len() < limit);
    } else if r2 < r1 {
        assert(table_matches(entries, rows, emit_unmatched, r2).len() < limit);
    }
}

/// Marks in the table change nothing in what any probe emits.
pub proof fn lemma_marked_matches(
    entries: Seq<KeyEntry>,
    marking: Seq<KeyRow>,
    m: int,
    rows: Seq<KeyRow>,
    emit_unmatched: bool,
    n: int,
    chunk_ctr: nat,
)
    requires
        keys_distinct(entries),
        buckets_wf(entries, chunk_ctr),
    ensures
        table_matches(mark_probed(entries, marking, m), rows, emit_unmatched, n) == table_matches(
            entries,
            rows,
            emit_unmatched,
            n,
        ),
        probe_matches(mark_probed(entries, marking, m), rows, emit_unmatched, n) == probe_matches(
            entries,
            rows,
            emit_unmatched,
            n,
        ),
    decreases n,
{
    if n > 0 {
        lemma_marked_matches(entries, marking, m, rows, emit_unmatched, n - 1, chunk_ctr);
        lemma_marked_row_matches(entries, marking, m, rows[n - 1], emit_unmatched, chunk_ctr);
    }
}

/// Marking the same rows again changes nothing.
pub proof fn lemma_mark_probed_twice(
    entries: Seq<KeyEntry>,
    rows: Seq<KeyRow>,
    n: int,
    chunk_ctr: nat,
)
    requires
        keys_distinct(entries),
        buckets_wf(entries, chunk_ctr),
    ensures
        mark_probed(mark_probed(entries, rows, n), rows, n) == mark_probed(entries, rows, n),
{
    let once = mark_probed(entries, rows, n);
    let twice = mark_probed(once, rows, n);
    lemma_mark_probed(entries, rows, n, chunk_ctr);
    assert forall|i: int| 0 <= i < entries.len() implies twice[i] == once[i] by {
        assert(entries[i].cells.len() >= 1);
        lemma_mark_entry(entries[i]);
        assert(holds_key(once[i], entries[i].hash, entries[i].key));
    }
    assert(twice =~= once);
}

/// Marking the first `r` rows and then the next `m` rows marks the first
/// `r + m` rows.
pub proof fn lemma_mark_probed_split(
    entries: Seq<KeyEntry>,
    rows: Seq<KeyRow>,
    r: int,
    m: int,
    chunk_ctr: nat,
)
    requires
        keys_distinct(entries),
        buckets_wf(entries, chunk_ctr),
        0 <= r <= rows.len(),
        0 <= m,
    ensures
        mark_probed(mark_probed(entries, rows, r), rows.skip(r), m) == mark_probed(
            entries,
            rows,
            r + m,
        ),
{
    let first = mark_probed(entries, rows, r);
    let both = mark_probed(first, rows.skip(r), m);
    let whole = mark_probed(entries, rows, r + m);
    let rest = rows.skip(r);
    lemma_mark_probed(entries, rows, r, chunk_ctr);
    assert forall|i: int| 0 <= i < entries.len() implies both[i] == whole[i] by {
        let h = entries[i].hash;
        let k = entries[i].key;
        assert(entries[i].cells.len() >= 1);
        lemma_mark_entry(entries[i]);
        assert(holds_key(first[i], h, k));
        if key_probed(rows, r + m, h, k) {
            let j = choose|j: int|
                0 <= j < r + m && j < rows.len() && #[trigger] rows[j] == (h, Some(k));
            if j < r {
                assert(key_probed(rows, r, h, k));
            } else {
                assert(rest[j - r] == rows[j]);
                assert(0 <= j - r < m && j - r < rest.len() && rest[j - r] == (h, Some(k)));
                assert(key_probed(rest, m, h, k));
            }
        }
        if key_probed(rows, r, h, k) {
            let j = choose|j: int|
                0 <= j < r && j < rows.len() && #[trigger] rows[j] == (h, Some(k));
            assert(0 <= j < r + m && j < rows.len() && rows[j] == (h, Some(k)));
        }
        if key_probed(rest, m, h, k) {
            let j = choose|j: int|
                0 <= j < m && j < rest.len() && #[trigger] rest[j] == (h, Some(k));
            assert(rest[j] == rows[j + r]);
            assert(0 <= j + r < r + m && j + r < rows.len() && rows[j + r] == (h, Some(k)));
        }
    }
    assert(both =~= whole);
}

/// What the first `n` rows emit is what the first `r` rows emit, followed by
/// what the next `n - r` rows emit when probed on their own, their ordinals
/// moved up by `r`.
pub proof fn lemma_matches_split(
    entries: Seq<KeyEntry>,
    rows: Seq<KeyRow>,
    emit_unmatched: bool,
    r: int,
    n: int,
)
    requires
        0 <= r <= n <= rows.len(),
        n <= 0x1_0000_0000,
    ensures
        table_matches(entries, rows, emit_unmatched, n) == table_matches(
            entries,
            rows,
            emit_unmatched,
            r,
        ) + table_matches(entries, rows.skip(r), emit_unmatched, n - r),
        probe_matches(entries, rows, emit_unmatched, n) == probe_matches(
            entries,
            rows,
            emit_unmatched,
            r,
        ) + shifted(probe_matches(entries, rows.skip(r), emit_unmatched, n - r), r),
    decreases n - r,
{
    let rest = rows.skip(r);
    if n == r {
        assert(table_matches(entries, rows, emit_unmatched, r) + Seq::<u64>::empty()
            =~= table_matches(entries, rows, emit_unmatched, r));
        assert(shifted(probe_matches(entries, rest, emit_unmatched, 0), r) =~= Seq::<u32>::empty());
        assert(probe_matches(entries, rows, emit_unmatched, r) + Seq::<u32>::empty()
            =~= probe_matches(entries, rows, emit_unmatched, r));
    } else {
        lemma_matches_split(entries, rows, emit_unmatched, r, n - 1);
        assert(rest[n - r - 1] == rows[n - 1]);
        let m = row_matches(entries, rows[n - 1], emit_unmatched);
        let a = table_matches(entries, rows, emit_unmatched, r);
        let b = table_matches(entries, rest, emit_unmatched, n - r - 1);
        assert((a + b) + m =~= a + (b + m));
        let pa = probe_matches(entries, rows, emit_unmatched, r);
        let pb = probe_matches(entries, rest, emit_unmatched, n - r - 1);
        let here = Seq::new(m.len(), |k: int| (n - 1) as u32);
        let there = Seq::new(m.len(), |k: int| (n - r - 1) as u32);
        assert(shifted(pb + there, r) =~= shifted(pb, r) + here);
        assert((pa + shifted(pb, r)) + here =~= pa + (shifted(pb, r) + here));
    }
}

/// After the keys among `rows` were marked, the entries without a mark are
/// those that had none before and whose key is not among `rows`.
pub proof fn lemma_unmarked_after_mark(
    entries: Seq<KeyEntry>,
    rows: Seq<KeyRow>,
    n: int,
    chunk_ctr: nat,
)
    requires
        keys_distinct(entries),
        buckets_wf(entries, chunk_ctr),
        0 <= n <= entries.len(),
    ensures
        unmarked_cells(mark_probed(entries, rows, rows.len() as int), n) == unmatched_cells(
            entries,
            rows,
            n,
        ),
    decreases n,
{
    if n > 0 {
        lemma_unmarked_after_mark(entries, rows, n - 1, chunk_ctr);
        lemma_mark_probed(entries, rows, rows.len() as int, chunk_ctr);
    }
}

} // verus!
