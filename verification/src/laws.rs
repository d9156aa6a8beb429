//! What holds of the table across calls, stated over the model and proved.

use crate::chunk_id::{lemma_encode, spec_encode, spec_is_marked, MAX_CHUNKS};
use crate::hash_keys::KeyRow;
use crate::lemmas::{
    lemma_extends_keeps_marks, lemma_insert_row, lemma_insert_rows, lemma_key_index,
    lemma_mark_probed, lemma_mark_probed_split, lemma_mark_probed_twice, lemma_marked_matches,
    lemma_matches_split, lemma_rows_consumed_unique, lemma_unmarked_after_mark,
};
use crate::model::{
    bucket_of, buckets_wf, extends, has_key, holds_key, insert_rows, key_index, key_probed,
    mark_probed, marks_kept, probe_matches, probe_result, rows_consumed, shifted, table_matches,
    unmarked_cells, unmatched_cells, KeyEntry, TableView,
};
use vstd::prelude::*;

verus! {

/// Two rows that share a locator are one row: below the chunk ceiling the
/// encoding loses nothing.
pub proof fn law_locators_are_distinct(c1: u32, r1: u32, c2: u32, r2: u32)
    requires
        c1 < MAX_CHUNKS,
        c2 < MAX_CHUNKS,
        spec_encode(c1, r1) == spec_encode(c2, r2),
    ensures
        c1 == c2,
        r1 == r2,
{
    lemma_encode(c1, r1);
    lemma_encode(c2, r2);
}

/// After a chunk was built, every row of it with a non-null key finds, under
/// its hash and key, a bucket that holds the locator of that row.
pub proof fn law_inserted_row_is_found(table: TableView, rows: Seq<KeyRow>, i: int)
    requires
        table.wf(),
        table.chunk_ctr < MAX_CHUNKS,
        rows.len() <= 0x1_0000_0000,
        0 <= i < rows.len(),
        rows[i].1 is Some,
    ensures
        bucket_of(
            insert_rows(table.entries, rows, table.chunk_ctr as u32, rows.len() as int),
            rows[i].0,
            rows[i].1->0,
        ) matches Some(cells) && cells.contains(spec_encode(table.chunk_ctr as u32, i as u32)),
{
    let chunk = table.chunk_ctr as u32;
    let ctr = table.chunk_ctr + 1;
    let n = rows.len() as int;
    let hash = rows[i].0;
    let key = rows[i].1->0;
    let cid = spec_encode(chunk, i as u32);
    let before = insert_rows(table.entries, rows, chunk, i);
    let mid = insert_rows(table.entries, rows, chunk, i + 1);
    let after = insert_rows(table.entries, rows, chunk, n);
    assert(buckets_wf(table.entries, ctr));
    lemma_insert_rows(table.entries, rows, chunk, i, ctr);
    lemma_insert_rows(table.entries, rows, chunk, n, ctr);
    lemma_encode(chunk, i as u32);
    lemma_insert_row(before, hash, key, cid, ctr);
    let w = key_index(mid, hash, key);
    assert(has_key(mid, hash, key));
    assert(holds_key(mid[w], hash, key));
    assert(extends(mid, after));
    assert(holds_key(after[w], mid[w].hash, mid[w].key));
    lemma_key_index(after, hash, key, w);
    let at = mid[w].cells.len() - 1;
    assert(mid[w].cells.is_prefix_of(after[w].cells));
    assert(after[w].cells[at] == mid[w].cells[at]);
    assert(mid[w].cells.last() == cid);
}

/// A mark, once set, stays: building a chunk and probing both leave every
/// key at its place, and marked if it was marked.
pub proof fn law_marks_stay(
    table: TableView,
    chunk: Seq<KeyRow>,
    probe: Seq<KeyRow>,
    mark_matches: bool,
    r: int,
)
    requires
        table.wf(),
        table.chunk_ctr < MAX_CHUNKS,
        chunk.len() <= 0x1_0000_0000,
    ensures
        marks_kept(
            table.entries,
            insert_rows(table.entries, chunk, table.chunk_ctr as u32, chunk.len() as int),
        ),
        marks_kept(
            table.entries,
            if mark_matches {
                mark_probed(table.entries, probe, r)
            } else {
                table.entries
            },
        ),
{
    let ctr = table.chunk_ctr + 1;
    assert(buckets_wf(table.entries, ctr));
    lemma_insert_rows(table.entries, chunk, table.chunk_ctr as u32, chunk.len() as int, ctr);
    lemma_extends_keeps_marks(
        table.entries,
        insert_rows(table.entries, chunk, table.chunk_ctr as u32, chunk.len() as int),
        ctr,
    );
    lemma_mark_probed(table.entries, probe, r, table.chunk_ctr);
}

/// Marks stay over any number of calls: where one call keeps the marks of a
/// table and the next keeps those of its result, the two together keep them.
pub proof fn law_marks_stay_over_calls(a: Seq<KeyEntry>, b: Seq<KeyEntry>, c: Seq<KeyEntry>)
    requires
        marks_kept(a, b),
        marks_kept(b, c),
    ensures
        marks_kept(a, c),
{
    assert forall|i: int| 0 <= i < a.len() implies {
        &&& holds_key(#[trigger] c[i], a[i].hash, a[i].key)
        &&& spec_is_marked(a[i].cells[0]) ==> spec_is_marked(c[i].cells[0])
    } by {
        assert(holds_key(b[i], a[i].hash, a[i].key));
        assert(holds_key(c[i], b[i].hash, b[i].key));
    }
}

/// A probe is a function of the table, the rows, the two policies and the
/// limit: two results of the same probe are one result. Without marking it
/// also leaves the table as it was.
pub proof fn law_probe_is_a_function(
    table: TableView,
    rows: Seq<KeyRow>,
    mark_matches: bool,
    emit_unmatched: bool,
    limit: nat,
    after1: TableView,
    table_match1: Seq<u64>,
    probe_match1: Seq<u32>,
    r1: int,
    after2: TableView,
    table_match2: Seq<u64>,
    probe_match2: Seq<u32>,
    r2: int,
)
    requires
        probe_result(
            table,
            after1,
            rows,
            mark_matches,
            emit_unmatched,
            limit,
            table_match1,
            probe_match1,
            r1,
        ),
        probe_result(
            table,
            after2,
            rows,
            mark_matches,
            emit_unmatched,
            limit,
            table_match2,
            probe_match2,
            r2,
        ),
    ensures
        r1 == r2,
        table_match1 == table_match2,
        probe_match1 == probe_match2,
        after1 == after2,
        !mark_matches ==> after1 == table,
{
    lemma_rows_consumed_unique(table.entries, rows, emit_unmatched, limit, r1, r2);
}

/// After a marking probe that consumed all of its rows, on a table that had
/// no marks, the keys without a mark are those that are not among the probe
/// rows, and enumerating them yields exactly their locators.
pub proof fn law_unmarked_are_unprobed(table: TableView, rows: Seq<KeyRow>)
    requires
        table.wf(),
        forall|i: int| 0 <= i < table.entries.len() ==> !#[trigger] table.marked(i),
    ensures
        unmarked_cells(
            mark_probed(table.entries, rows, rows.len() as int),
            table.entries.len() as int,
        ) == unmatched_cells(table.entries, rows, table.entries.len() as int),
        forall|i: int|
            0 <= i < table.entries.len() ==> (spec_is_marked(
                (#[trigger] mark_probed(table.entries, rows, rows.len() as int)[i]).cells[0],
            ) <==> key_probed(
                rows,
                rows.len() as int,
                table.entries[i].hash,
                table.entries[i].key,
            )),
{
    lemma_unmarked_after_mark(table.entries, rows, table.entries.len() as int, table.chunk_ctr);
    lemma_mark_probed(table.entries, rows, rows.len() as int, table.chunk_ctr);
    assert forall|i: int| 0 <= i < table.entries.len() implies (spec_is_marked(
        (#[trigger] mark_probed(table.entries, rows, rows.len() as int)[i]).cells[0],
    ) <==> key_probed(rows, rows.len() as int, table.entries[i].hash, table.entries[i].key)) by {
        assert(!table.marked(i));
    }
}

/// Running a marking probe a second time emits what the first run emitted,
/// consumes as many rows, and leaves the marks as the first run left them.
pub proof fn law_marking_probe_is_idempotent(
    table: TableView,
    rows: Seq<KeyRow>,
    emit_unmatched: bool,
    limit: nat,
    once: TableView,
    table_match1: Seq<u64>,
    probe_match1: Seq<u32>,
    r1: int,
    twice: TableView,
    table_match2: Seq<u64>,
    probe_match2: Seq<u32>,
    r2: int,
)
    requires
        table.wf(),
        probe_result(
            table,
            once,
            rows,
            true,
            emit_unmatched,
            limit,
            table_match1,
            probe_match1,
            r1,
        ),
        probe_result(
            once,
            twice,
            rows,
            true,
            emit_unmatched,
            limit,
            table_match2,
            probe_match2,
            r2,
        ),
    ensures
        r2 == r1,
        table_match2 == table_match1,
        probe_match2 == probe_match1,
        twice == once,
{
    let e = table.entries;
    assert forall|q: int|
        table_matches(once.entries, rows, emit_unmatched, q) == #[trigger] table_matches(
            e,
            rows,
            emit_unmatched,
            q,
        ) by {
        lemma_marked_matches(e, rows, r1, rows, emit_unmatched, q, table.chunk_ctr);
    }
    assert(rows_consumed(e, rows, emit_unmatched, limit, r2)) by {
        assert forall|q: int| 1 <= q < r2 implies (#[trigger] table_matches(
            e,
            rows,
            emit_unmatched,
            q,
        )).len() < limit by {
            assert(table_matches(once.entries, rows, emit_unmatched, q).len() < limit);
        }
    }
    lemma_rows_consumed_unique(e, rows, emit_unmatched, limit, r1, r2);
    lemma_marked_matches(e, rows, r1, rows, emit_unmatched, r1, table.chunk_ctr);
    lemma_mark_probed_twice(e, rows, r1, table.chunk_ctr);
}

/// A probe that stopped at its limit after `r1` rows can be resumed on the
/// rows from `r1` on. The two calls together emit what one probe of the first
/// `r1 + r2` rows emits, nothing lost and nothing twice, once the ordinals of
/// the second call are moved up by `r1`; and they leave the marks that this
/// one probe leaves.
pub proof fn law_resumed_probe_completes(
    table: TableView,
    rows: Seq<KeyRow>,
    mark_matches: bool,
    emit_unmatched: bool,
    limit1: nat,
    limit2: nat,
    mid: TableView,
    table_match1: Seq<u64>,
    probe_match1: Seq<u32>,
    r1: int,
    after: TableView,
    table_match2: Seq<u64>,
    probe_match2: Seq<u32>,
    r2: int,
)
    requires
        table.wf(),
        rows.len() <= u32::MAX,
        probe_result(
            table,
            mid,
            rows,
            mark_matches,
            emit_unmatched,
            limit1,
            table_match1,
            probe_match1,
            r1,
        ),
        probe_result(
            mid,
            after,
            rows.skip(r1),
            mark_matches,
            emit_unmatched,
            limit2,
            table_match2,
            probe_match2,
            r2,
        ),
    ensures
        0 <= r1 <= r1 + r2 <= rows.len(),
        table_match1 + table_match2 == table_matches(
            table.entries,
            rows,
            emit_unmatched,
            r1 + r2,
        ),
        probe_match1 + shifted(probe_match2, r1) == probe_matches(
            table.entries,
            rows,
            emit_unmatched,
            r1 + r2,
        ),
        after.chunk_ctr == table.chunk_ctr,
        after.entries == if mark_matches {
            mark_probed(table.entries, rows, r1 + r2)
        } else {
            table.entries
        },
{
    let e = table.entries;
    let rest = rows.skip(r1);
    if mark_matches {
        lemma_marked_matches(e, rows, r1, rest, emit_unmatched, r2, table.chunk_ctr);
        lemma_mark_probed_split(e, rows, r1, r2, table.chunk_ctr);
    }
    lemma_matches_split(e, rows, emit_unmatched, r1, r1 + r2);
}

} // verus!
