//! Why the cache of a join agrees with its state table: what a write does to a cached entry is
//! what it does to the rows that a fetch would find.

use vstd::prelude::*;
use crate::entries::{
    lemma_insert, lemma_remove, lemma_sorted_distinct, lemma_sorted_unique, lemma_to_map,
    lemma_update, lookup, place_of, sorted, to_map, values_of, within,
};
use crate::error::{StorageError, StorageResult};
use crate::join_entry_state::JoinEntryState;
use crate::join_hash_map::{
    distinct_pks, entry_becomes, entry_of, fetches, has_pk, lemma_entry_keys, lemma_entry_values,
    lemma_insert_keeps_entry, lemma_remove_keeps_entry, lemma_replace_keeps_entry, row_deleted,
    row_inserted, rows_yielded, stream_failure, JoinHashMap,
};
use crate::join_row::{lemma_split_undoes_with, split_degree, with_degree, JoinRowView};
use crate::key::{
    has_prefix, key_lt, lemma_key_lt_total, lemma_key_lt_transitive, lemma_prefix_bounds,
    prefix_bounds,
};
use crate::mem_table::{
    deleted, fits, insert_refused, inserted, lemma_delete_hides,
    lemma_fit_stores_updates, lemma_insert_shows, overlay, RowOpView,
};
use crate::merge::{delivered, failure, merged, streams, updates_met};
use crate::row::{indices_within, project, Row, RowView};
use crate::row_iter::StateTableRowIter;
use crate::state_table::StateTableExtended;

verus! {

/// `found` is what a fetch of a key prefix finds in a table in which `visible` can be read: the
/// rows whose keys start with the prefix, in the order of their keys.
pub open spec fn finds_rows(
    visible: Map<Seq<u8>, RowView>,
    prefix: Seq<u8>,
    found: Seq<(Seq<u8>, RowView)>,
) -> bool {
    sorted(found) && to_map(found) == within(visible, prefix_bounds(prefix))
}

/// What a stream of rows is read as: the rows and the error that it was made of.
pub proof fn lemma_stream_is_read(
    stream: Seq<StorageResult<Row>>,
    rows: Seq<RowView>,
    error: Option<StorageError>,
)
    requires
        streams(stream, rows, error),
    ensures
        rows_yielded(stream) == rows,
        stream_failure(stream) == error,
    decreases stream.len(),
{
    if rows.len() > 0 {
        let rest = stream.skip(1);
        assert(stream[0] matches Ok(row) && row@ == rows[0]);
        assert forall|i: int| 0 <= i < rows.skip(1).len() implies (#[trigger] rest[i] matches Ok(
            row,
        ) && row@ == rows.skip(1)[i]) by {
            assert(rest[i] == stream[i + 1]);
        }
        if error is Some {
            assert(rest.last() == stream.last());
        }
        lemma_stream_is_read(rest, rows.skip(1), error);
        assert(rows_yielded(stream) =~= rows);
    } else {
        if error is Some {
            assert(stream.last() == stream[0]);
        }
        assert(rows_yielded(stream) =~= rows);
    }
}

/// A fetch for a join key finds what was written, before it is committed: where storage delivers
/// the stored rows of the prefix in the order of their keys, the entry that is made of the scan is
/// the entry of the rows of the prefix that would stand if the buffer were carried out on what is
/// stored.
pub proof fn lemma_fetch_reads_own_writes<S, SER>(
    table: StateTableExtended<S, SER>,
    iter: StateTableRowIter<'_, S>,
    prefix: Seq<u8>,
    epoch: u64,
    stored: Map<Seq<u8>, RowView>,
    delivered: Seq<(Seq<u8>, RowView)>,
    stream: Seq<StorageResult<Row>>,
)
    requires
        table.is_scan(
            iter,
            prefix_bounds(table.keyspace().prefix@ + prefix),
            prefix_bounds(prefix),
            epoch,
        ),
        sorted(delivered),
        to_map(delivered) == within(stored, prefix_bounds(prefix)),
        streams(stream, values_of(merged(delivered, iter.rest(), false)), None),
    ensures
        stream_failure(stream) is None,
        finds_rows(
            overlay(stored, table.mem_table()@),
            prefix,
            merged(delivered, iter.rest(), false),
        ),
        rows_yielded(stream) == values_of(merged(delivered, iter.rest(), false)),
{
    table.lemma_scan_reads_own_writes(
        iter,
        prefix_bounds(table.keyspace().prefix@ + prefix),
        prefix_bounds(prefix),
        epoch,
        stored,
        delivered,
    );
    lemma_stream_is_read(stream, values_of(merged(delivered, iter.rest(), false)), None);
}

/// The place where a new key belongs among sorted entries.
proof fn lemma_place<V>(entries: Seq<(Seq<u8>, V)>, key: Seq<u8>) -> (place: int)
    requires
        sorted(entries),
        !to_map(entries).contains_key(key),
    ensures
        0 <= place <= entries.len(),
        forall|j: int| 0 <= j < place ==> key_lt(#[trigger] entries[j].0, key),
        forall|j: int| place <= j < entries.len() ==> key_lt(key, #[trigger] entries[j].0),
    decreases entries.len(),
{
    lemma_sorted_distinct(entries);
    lemma_to_map(entries);
    if entries.len() == 0 {
        0
    } else {
        let last = entries.len() - 1;
        assert(to_map(entries).contains_key(entries[last].0));
        lemma_key_lt_total(entries[last].0, key);
        if key_lt(entries[last].0, key) {
            assert forall|j: int| 0 <= j < entries.len() implies key_lt(
                #[trigger] entries[j].0,
                key,
            ) by {
                if j < last {
                    lemma_key_lt_transitive(entries[j].0, entries[last].0, key);
                }
            }
            entries.len() as int
        } else {
            let shorter = entries.drop_last();
            assert forall|i: int, j: int| 0 <= i < j < shorter.len() implies key_lt(
                #[trigger] shorter[i].0,
                #[trigger] shorter[j].0,
            ) by {
                assert(shorter[i] == entries[i] && shorter[j] == entries[j]);
            }
            if to_map(shorter).contains_key(key) {
                lemma_sorted_distinct(shorter);
                lemma_to_map(shorter);
                assert(entries[place_of(shorter, key)].0 == key);
            }
            let place = lemma_place(shorter, key);
            assert forall|j: int| 0 <= j < place implies key_lt(#[trigger] entries[j].0, key) by {
                assert(shorter[j] == entries[j]);
            }
            assert forall|j: int| place <= j < entries.len() implies key_lt(
                key,
                #[trigger] entries[j].0,
            ) by {
                if j < last {
                    assert(shorter[j] == entries[j]);
                }
            }
            place
        }
    }
}

/// A row that is inserted under a key that starts with the prefix of its join key is among the rows
/// that a fetch for that join key finds from then on, before it is committed; and the entry that is
/// made of them is the entry of before with the row put under its primary key, as a cached entry
/// has it. Of the rows of the join key, the one under the key, if there is one, must be the one with
/// the primary key.
pub proof fn lemma_insert_is_coherent(
    stored: Map<Seq<u8>, RowView>,
    ops: Map<Seq<u8>, RowOpView>,
    prefix: Seq<u8>,
    key: Seq<u8>,
    join_row: JoinRowView,
    pk_indices: Seq<usize>,
    before: Seq<(Seq<u8>, RowView)>,
    after: Seq<(Seq<u8>, RowView)>,
)
    requires
        !insert_refused(ops, key),
        has_prefix(key, prefix),
        finds_rows(overlay(stored, ops), prefix, before),
        finds_rows(overlay(stored, inserted(ops, key, with_degree(join_row))), prefix, after),
        forall|i: int|
            0 <= i < before.len() ==> (#[trigger] before[i].0 == key <==> project(
                before[i].1,
                pk_indices,
            ) == project(with_degree(join_row), pk_indices)),
    ensures
        to_map(after) == to_map(before).insert(key, with_degree(join_row)),
        entry_of(values_of(after), pk_indices) == entry_of(values_of(before), pk_indices).insert(
            project(with_degree(join_row), pk_indices),
            join_row,
        ),
{
    let row = with_degree(join_row);
    let pk = project(row, pk_indices);
    let rows = values_of(before);
    lemma_insert_shows(stored, ops, key, row);
    lemma_prefix_bounds(prefix, key);
    assert(to_map(before).insert(key, row) =~= to_map(after));
    lemma_sorted_distinct(before);
    lemma_to_map(before);
    if to_map(before).contains_key(key) {
        let place = place_of(before, key);
        lemma_update(before, place, row);
        lemma_sorted_unique(before.update(place, (key, row)), after);
        assert(values_of(after) =~= rows.update(place, row));
        assert forall|i: int| 0 <= i < rows.len() implies (i == place <==> project(
            #[trigger] rows[i],
            pk_indices,
        ) == pk) by {
            assert(rows[i] == before[i].1);
            assert(before[i].0 == key <==> i == place);
        }
        lemma_replace_keeps_entry(rows, place, join_row, pk_indices);
    } else {
        let place = lemma_place(before, key);
        lemma_insert(before, place, key, row);
        lemma_sorted_unique(before.insert(place, (key, row)), after);
        assert(values_of(after) =~= rows.insert(place, row));
        assert(!has_pk(rows, pk_indices, pk)) by {
            if has_pk(rows, pk_indices, pk) {
                let i = choose|i: int|
                    0 <= i < rows.len() && project(#[trigger] rows[i], pk_indices) == pk;
                assert(before[i].0 == key);
                assert(to_map(before).contains_key(before[i].0));
            }
        }
        lemma_insert_keeps_entry(rows, place, join_row, pk_indices);
    }
}

/// A row that is deleted is no longer among the rows that a fetch for its join key finds; and the
/// entry that is made of them is the entry of before without its primary key, as a cached entry has
/// it. No two rows of the join key may have the same primary key, and where the buffer inserted the
/// row, none may be stored under its key.
pub proof fn lemma_delete_is_coherent(
    stored: Map<Seq<u8>, RowView>,
    ops: Map<Seq<u8>, RowOpView>,
    prefix: Seq<u8>,
    key: Seq<u8>,
    pk_indices: Seq<usize>,
    before: Seq<(Seq<u8>, RowView)>,
    after: Seq<(Seq<u8>, RowView)>,
)
    requires
        overlay(stored, ops).contains_key(key),
        ops.contains_key(key) && ops[key] is Insert ==> !stored.contains_key(key),
        has_prefix(key, prefix),
        finds_rows(overlay(stored, ops), prefix, before),
        finds_rows(
            overlay(stored, deleted(ops, key, overlay(stored, ops)[key])),
            prefix,
            after,
        ),
        distinct_pks(values_of(before), pk_indices),
    ensures
        to_map(after) == to_map(before).remove(key),
        entry_of(values_of(after), pk_indices) == entry_of(values_of(before), pk_indices).remove(
            project(overlay(stored, ops)[key], pk_indices),
        ),
{
    let row = overlay(stored, ops)[key];
    lemma_delete_hides(stored, ops, key, row);
    lemma_prefix_bounds(prefix, key);
    lemma_sorted_distinct(before);
    lemma_to_map(before);
    assert(to_map(before).contains_key(key));
    let place = place_of(before, key);
    lemma_remove(before, place);
    assert(to_map(before).remove(key) =~= to_map(after));
    lemma_sorted_unique(before.remove(place), after);
    let rows = values_of(before);
    assert(values_of(after) =~= rows.remove(place));
    lemma_remove_keeps_entry(rows, place, pk_indices);
}

/// Every row stands under the key that `key_of` makes of its primary key.
pub open spec fn keyed_by_pk(
    rows: Map<Seq<u8>, RowView>,
    pk_indices: Seq<usize>,
    key_of: spec_fn(RowView) -> Seq<u8>,
) -> bool {
    forall|key: Seq<u8>| #[trigger]
        rows.contains_key(key) ==> key == key_of(project(rows[key], pk_indices))
}

/// Where every row stands under the key that is made of its primary key, the entry of the rows that
/// a fetch finds has each of them under its primary key, and nothing else.
pub proof fn lemma_found_entry(
    visible: Map<Seq<u8>, RowView>,
    prefix: Seq<u8>,
    found: Seq<(Seq<u8>, RowView)>,
    pk_indices: Seq<usize>,
    key_of: spec_fn(RowView) -> Seq<u8>,
)
    requires
        finds_rows(visible, prefix, found),
        keyed_by_pk(visible, pk_indices, key_of),
    ensures
        forall|key: Seq<u8>| #[trigger]
            visible.contains_key(key) && has_prefix(key, prefix) ==> entry_of(
                values_of(found),
                pk_indices,
            ).contains_pair(project(visible[key], pk_indices), split_degree(visible[key])),
        forall|pk: RowView| #[trigger]
            entry_of(values_of(found), pk_indices).contains_key(pk) ==> {
                &&& visible.contains_key(key_of(pk))
                &&& has_prefix(key_of(pk), prefix)
                &&& project(visible[key_of(pk)], pk_indices) == pk
            },
{
    let rows = values_of(found);
    lemma_sorted_distinct(found);
    lemma_to_map(found);
    assert forall|i: int| 0 <= i < found.len() implies #[trigger] found[i].0 == key_of(
        project(found[i].1, pk_indices),
    ) && visible.contains_key(found[i].0) && visible[found[i].0] == found[i].1 && has_prefix(
        found[i].0,
        prefix,
    ) by {
        assert(to_map(found).contains_key(found[i].0));
        lemma_prefix_bounds(prefix, found[i].0);
    }
    assert forall|i: int, j: int| 0 <= i < j < rows.len() implies project(
        #[trigger] rows[i],
        pk_indices,
    ) != project(#[trigger] rows[j], pk_indices) by {
        assert(rows[i] == found[i].1 && rows[j] == found[j].1);
        assert(found[i].0 != found[j].0);
    }
    assert forall|key: Seq<u8>| #[trigger]
        visible.contains_key(key) && has_prefix(key, prefix) implies entry_of(
        rows,
        pk_indices,
    ).contains_pair(project(visible[key], pk_indices), split_degree(visible[key])) by {
        lemma_prefix_bounds(prefix, key);
        assert(to_map(found).contains_key(key));
        let i = place_of(found, key);
        assert(rows[i] == visible[key]);
        lemma_entry_values(rows, pk_indices, i);
    }
    assert forall|pk: RowView| #[trigger] entry_of(rows, pk_indices).contains_key(pk) implies {
        &&& visible.contains_key(key_of(pk))
        &&& has_prefix(key_of(pk), prefix)
        &&& project(visible[key_of(pk)], pk_indices) == pk
    } by {
        lemma_entry_keys(rows, pk_indices, pk);
        let i = choose|i: int|
            0 <= i < rows.len() && project(#[trigger] rows[i], pk_indices) == pk;
        assert(rows[i] == found[i].1);
        assert(found[i].0 == key_of(pk));
    }
}

/// A row that was inserted under a join key that is not cached is what the next read of the join
/// key gives, before it is committed.
///
/// The row is inserted (`start` becomes `written`), the state table is scanned for the join key,
/// storage delivers without failing, the rows of the scan are fetched, and the join key is read
/// (`written` becomes `end`). Then the state that is read has the row with its degree under its
/// primary key, beside every other row of the join key that could be read before, and nothing else;
/// and it is cached from then on.
///
/// The key of the row starts with the prefix of the join key, and every row that can be read stands
/// under the key that is made of its primary key. Where the buffer fitted what is stored before the
/// insert, the scan meets every update together with its stored row.
pub proof fn lemma_get_reads_own_insert<S>(
    start: JoinHashMap<S>,
    written: JoinHashMap<S>,
    end: JoinHashMap<S>,
    join_key: Seq<u8>,
    value: JoinRowView,
    key_of: spec_fn(RowView) -> Seq<u8>,
    prefix: Seq<u8>,
    stored: Map<Seq<u8>, RowView>,
    iter: StateTableRowIter<'_, S>,
    items: Seq<StorageResult<(Vec<u8>, Row)>>,
    stream: Seq<StorageResult<Row>>,
    remote: Option<JoinEntryState>,
    state: Option<&JoinEntryState>,
)
    requires
        indices_within(start.pk_indices(), value.row.len()),
        // The join key is not cached, and the row is inserted.
        !start.inner()@.contains_key(join_key),
        written.same_setup(&start),
        entry_becomes(
            start.inner(),
            written.inner(),
            join_key,
            start.inner()@[join_key]@.insert(project(value.row, start.pk_indices()), value),
        ),
        row_inserted(
            start.state_table().mem_table(),
            written.state_table().mem_table(),
            key_of(project(with_degree(value), start.pk_indices())),
            with_degree(value),
            Ok(()),
        ),
        // What the rows and their keys are like.
        has_prefix(key_of(project(value.row, start.pk_indices())), prefix),
        keyed_by_pk(
            overlay(stored, start.state_table().mem_table()@),
            start.pk_indices(),
            key_of,
        ),
        // The scan for the join key, over a store that does not fail.
        written.state_table().is_scan(
            iter,
            prefix_bounds(written.state_table().keyspace().prefix@ + prefix),
            prefix_bounds(prefix),
            written.current_epoch(),
        ),
        failure(items) is None,
        sorted(delivered(items)),
        to_map(delivered(items)) == within(stored, prefix_bounds(prefix)),
        streams(
            stream,
            values_of(merged(delivered(items), iter.rest(), failure(items) is Some)),
            failure(items),
        ),
        // The fetch, and the read.
        fetches(stream, written.pk_indices(), Ok(remote)),
        written.gets(&end, join_key, remote, state),
    ensures
        fits(stored, start.state_table().mem_table()@) ==> updates_met(
            delivered(items),
            iter.rest(),
        ),
        state matches Some(entry) && {
            let pk = project(value.row, start.pk_indices());
            let readable = overlay(stored, start.state_table().mem_table()@);
            &&& entry.wf()
            &&& entry@.contains_pair(pk, value)
            &&& forall|key: Seq<u8>| #[trigger]
                readable.contains_key(key) && has_prefix(key, prefix) && key != key_of(pk)
                    ==> entry@.contains_pair(
                    project(readable[key], start.pk_indices()),
                    split_degree(readable[key]),
                )
            &&& forall|other: RowView| #[trigger]
                entry@.contains_key(other) && other != pk ==> exists|key: Seq<u8>| #[trigger]
                    readable.contains_key(key) && has_prefix(key, prefix) && project(
                        readable[key],
                        start.pk_indices(),
                    ) == other
            &&& end.inner()@.contains_pair(join_key, *entry)
        },
{
    let pk_indices = start.pk_indices();
    let row = with_degree(value);
    let pk = project(value.row, pk_indices);
    let key = key_of(pk);
    let ops = start.state_table().mem_table()@;
    let readable = overlay(stored, ops);
    let found = merged(delivered(items), iter.rest(), false);
    let rows = values_of(found);
    assert(project(row, pk_indices) =~= pk);
    lemma_insert_shows(stored, ops, key, row);
    if fits(stored, ops) {
        lemma_fit_stores_updates(stored, ops, key, row);
        written.state_table().lemma_scan_reads_own_writes(
            iter,
            prefix_bounds(written.state_table().keyspace().prefix@ + prefix),
            prefix_bounds(prefix),
            written.current_epoch(),
            stored,
            delivered(items),
        );
    }
    lemma_fetch_reads_own_writes(
        written.state_table(),
        iter,
        prefix,
        written.current_epoch(),
        stored,
        delivered(items),
        stream,
    );
    let now = readable.insert(key, row);
    lemma_found_entry(now, prefix, found, pk_indices, key_of);
    lemma_split_undoes_with(value);
    assert(now.contains_key(key));
    assert(entry_of(rows, pk_indices).contains_pair(pk, value));
    assert(remote is Some) by {
        if remote is None {
            assert(rows.len() == 0);
            assert(entry_of(rows, pk_indices) =~= Map::empty());
        }
    }
    let entry = remote->Some_0;
    assert forall|at: Seq<u8>| #[trigger]
        readable.contains_key(at) && has_prefix(at, prefix) && at != key
            implies entry@.contains_pair(
        project(readable[at], pk_indices),
        split_degree(readable[at]),
    ) by {
        assert(now.contains_key(at));
    }
    assert forall|other: RowView| #[trigger]
        entry@.contains_key(other) && other != pk implies exists|at: Seq<u8>| #[trigger]
            readable.contains_key(at) && has_prefix(at, prefix) && project(
                readable[at],
                pk_indices,
            ) == other by {
        assert(entry_of(rows, pk_indices).contains_key(other));
        assert(readable.contains_key(key_of(other)));
    }
}

/// A row that was deleted under a join key that is not cached is gone from what the next read of the
/// join key gives, before the delete is committed.
///
/// The row is deleted (`start` becomes `written`), the state table is scanned for the join key,
/// storage delivers without failing, the rows of the scan are fetched, and the join key is read
/// (`written` becomes `end`). Then nothing is read, and the cache stays as it was, exactly where no
/// row of the join key under another key could be read before. Otherwise the state that is read has
/// every other row of the join key that could be read before, and nothing else; and it is cached
/// from then on. It is the entry of `earlier`, which a fetch before the delete would have found,
/// without the primary key of the deleted row, where the row that stood under its key had that
/// primary key.
///
/// Every row that can be read stands under the key that is made of its primary key; and where the
/// buffer inserted the row, none is stored under its key. Where the buffer fitted what is stored
/// before the delete, the scan meets every update together with its stored row.
pub proof fn lemma_get_reads_own_delete<S>(
    start: JoinHashMap<S>,
    written: JoinHashMap<S>,
    end: JoinHashMap<S>,
    join_key: Seq<u8>,
    value: RowView,
    key_of: spec_fn(RowView) -> Seq<u8>,
    prefix: Seq<u8>,
    stored: Map<Seq<u8>, RowView>,
    earlier: Seq<(Seq<u8>, RowView)>,
    iter: StateTableRowIter<'_, S>,
    items: Seq<StorageResult<(Vec<u8>, Row)>>,
    stream: Seq<StorageResult<Row>>,
    remote: Option<JoinEntryState>,
    state: Option<&JoinEntryState>,
)
    requires
        // The join key is not cached, and the row is deleted.
        !start.inner()@.contains_key(join_key),
        written.same_setup(&start),
        entry_becomes(
            start.inner(),
            written.inner(),
            join_key,
            start.inner()@[join_key]@.remove(project(value, start.pk_indices())),
        ),
        row_deleted(
            start.state_table().mem_table(),
            written.state_table().mem_table(),
            key_of(project(value, start.pk_indices())),
            value,
            Ok(()),
        ),
        // What the rows and their keys are like.
        lookup(
            start.state_table().mem_table()@,
            key_of(project(value, start.pk_indices())),
        ) matches Some(RowOpView::Insert(_)) ==> !stored.contains_key(
            key_of(project(value, start.pk_indices())),
        ),
        keyed_by_pk(
            overlay(stored, start.state_table().mem_table()@),
            start.pk_indices(),
            key_of,
        ),
        finds_rows(overlay(stored, start.state_table().mem_table()@), prefix, earlier),
        // The scan for the join key, over a store that does not fail.
        written.state_table().is_scan(
            iter,
            prefix_bounds(written.state_table().keyspace().prefix@ + prefix),
            prefix_bounds(prefix),
            written.current_epoch(),
        ),
        failure(items) is None,
        sorted(delivered(items)),
        to_map(delivered(items)) == within(stored, prefix_bounds(prefix)),
        streams(
            stream,
            values_of(merged(delivered(items), iter.rest(), failure(items) is Some)),
            failure(items),
        ),
        // The fetch, and the read.
        fetches(stream, written.pk_indices(), Ok(remote)),
        written.gets(&end, join_key, remote, state),
    ensures
        fits(stored, start.state_table().mem_table()@) ==> updates_met(
            delivered(items),
            iter.rest(),
        ),
        state is None <==> forall|key: Seq<u8>| #[trigger]
            overlay(stored, start.state_table().mem_table()@).contains_key(key) && has_prefix(
                key,
                prefix,
            ) ==> key == key_of(project(value, start.pk_indices())),
        state is None ==> end.inner() == start.inner(),
        state matches Some(entry) ==> {
            let pk = project(value, start.pk_indices());
            let readable = overlay(stored, start.state_table().mem_table()@);
            &&& entry.wf()
            &&& !entry@.contains_key(pk)
            &&& forall|key: Seq<u8>| #[trigger]
                readable.contains_key(key) && has_prefix(key, prefix) && key != key_of(pk)
                    ==> entry@.contains_pair(
                    project(readable[key], start.pk_indices()),
                    split_degree(readable[key]),
                )
            &&& forall|other: RowView| #[trigger]
                entry@.contains_key(other) ==> exists|key: Seq<u8>| #[trigger]
                    readable.contains_key(key) && has_prefix(key, prefix) && key != key_of(pk)
                        && project(readable[key], start.pk_indices()) == other
            &&& (readable.contains_key(key_of(pk)) ==> project(
                readable[key_of(pk)],
                start.pk_indices(),
            ) == pk) ==> entry@ == entry_of(values_of(earlier), start.pk_indices()).remove(pk)
            &&& end.inner()@.contains_pair(join_key, *entry)
        },
{
    let pk_indices = start.pk_indices();
    let pk = project(value, pk_indices);
    let key = key_of(pk);
    let ops = start.state_table().mem_table()@;
    let readable = overlay(stored, ops);
    let found = merged(delivered(items), iter.rest(), false);
    let rows = values_of(found);
    lemma_delete_hides(stored, ops, key, value);
    if fits(stored, ops) {
        lemma_fit_stores_updates(stored, ops, key, value);
        written.state_table().lemma_scan_reads_own_writes(
            iter,
            prefix_bounds(written.state_table().keyspace().prefix@ + prefix),
            prefix_bounds(prefix),
            written.current_epoch(),
            stored,
            delivered(items),
        );
    }
    lemma_fetch_reads_own_writes(
        written.state_table(),
        iter,
        prefix,
        written.current_epoch(),
        stored,
        delivered(items),
        stream,
    );
    let now = readable.remove(key);
    lemma_found_entry(now, prefix, found, pk_indices, key_of);
    lemma_found_entry(readable, prefix, earlier, pk_indices, key_of);
    if remote is None {
        assert(rows.len() == 0);
        assert(entry_of(rows, pk_indices) =~= Map::empty());
        assert forall|at: Seq<u8>| #[trigger]
            readable.contains_key(at) && has_prefix(at, prefix) implies at == key by {
            if at != key {
                assert(now.contains_key(at));
            }
        }
    } else {
        let entry = remote->Some_0;
        let before = entry_of(values_of(earlier), pk_indices);
        assert(found.len() > 0);
        lemma_to_map(found);
        lemma_sorted_distinct(found);
        assert(to_map(found).contains_key(found[0].0));
        lemma_prefix_bounds(prefix, found[0].0);
        assert(readable.contains_key(found[0].0) && found[0].0 != key);
        assert forall|at: Seq<u8>| #[trigger]
            readable.contains_key(at) && has_prefix(at, prefix) && at != key
                implies entry@.contains_pair(
            project(readable[at], pk_indices),
            split_degree(readable[at]),
        ) by {
            assert(now.contains_key(at));
        }
        assert forall|other: RowView| #[trigger] entry@.contains_key(other) implies exists|
            at: Seq<u8>,
        | #[trigger]
            readable.contains_key(at) && has_prefix(at, prefix) && at != key && project(
                readable[at],
                pk_indices,
            ) == other by {
            assert(entry_of(rows, pk_indices).contains_key(other));
            assert(readable.contains_key(key_of(other)));
        }
        if readable.contains_key(key) ==> project(readable[key], pk_indices) == pk {
            assert forall|other: RowView| #[trigger]
                before.contains_key(other) && other != pk implies entry@.contains_pair(
                other,
                before[other],
            ) by {
                assert(readable.contains_key(key_of(other)));
                assert(key_of(other) != key);
            }
            assert(entry@ =~= before.remove(pk));
        }
    }
}

/// A write under a key that does not start with the prefix of a join key changes nothing that a
/// fetch for that join key finds.
pub proof fn lemma_other_join_keys_are_untouched(
    visible: Map<Seq<u8>, RowView>,
    prefix: Seq<u8>,
    key: Seq<u8>,
    row: RowView,
    found: Seq<(Seq<u8>, RowView)>,
)
    requires
        !has_prefix(key, prefix),
    ensures
        finds_rows(visible.insert(key, row), prefix, found) <==> finds_rows(visible, prefix, found),
        finds_rows(visible.remove(key), prefix, found) <==> finds_rows(visible, prefix, found),
{
    lemma_prefix_bounds(prefix, key);
    assert(within(visible.insert(key, row), prefix_bounds(prefix)) =~= within(
        visible,
        prefix_bounds(prefix),
    ));
    assert(within(visible.remove(key), prefix_bounds(prefix)) =~= within(
        visible,
        prefix_bounds(prefix),
    ));
}

} // verus!
