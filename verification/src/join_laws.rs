//! What callers of a join hash map can rely on, said of the calls themselves: what a write does to
//! the cached rows and to the state table, what a read finds, and what a fetch makes of a scan.

use vstd::prelude::*;
use std::ops::DerefMut;
use crate::catalog::{DataType, OrderType, OrderedRowSerializer};
use crate::entries::{lemma_sorted_distinct, lemma_to_map, place_of, to_map};
use crate::error::{RwError, RwResult, StorageError, StorageResult};
use crate::evictable::{lemma_place_is_unique, EvictableHashMap};
use crate::join_entry_state::JoinEntryState;
use crate::join_hash_map::{
    descending, entry_of, has_pk, lemma_entry_keys, rows_yielded, stream_failure, HashKey, JoinHashMap,
};
use crate::join_row::{split_degree, JoinRow};
use crate::key::{
    admits, has_prefix, key_lt, lemma_prefix_bounds, lemma_prefix_is_the_beginning, prefix_bounds, Keyspace,
};
use crate::mem_table::{lemma_listed_operations, RowOpView};
use crate::row::{project, Row, RowView, ScalarView};
use crate::row_iter::StateTableRowIter;
use crate::state_table::WriteBatch;

verus! {

/// Adding a row changes the cached rows of its join key, whatever the key, and no others: where they
/// are cached, they are the rows of before with this one under its primary key, and the join key is
/// the one used last. Where they are not cached, the cache stays as it was.
pub proof fn lemma_insert_reaches_the_cached_rows<
    S,
    D: Fn(&HashKey, &Vec<DataType>) -> RwResult<Row>,
    F: Fn(&Row, &OrderedRowSerializer) -> Vec<u8>,
>(
    map: &mut JoinHashMap<S>,
    join_key: &HashKey,
    pk: Row,
    value: JoinRow,
    deserialize: D,
    serialize_pk: F,
    result: RwResult<()>,
)
    requires
        call_ensures(
            JoinHashMap::<S>::insert::<D, F>,
            (map, join_key, pk, value, deserialize, serialize_pk),
            result,
        ),
    ensures
        old(map).inner()@.contains_key(join_key.0@) ==> {
            &&& final(map).inner()@.contains_key(join_key.0@)
            &&& final(map).inner()@[join_key.0@]@ == old(map).inner()@[join_key.0@]@.insert(
                pk@,
                value@,
            )
        },
        forall|other: Seq<u8>|
            other != join_key.0@ ==> {
                &&& #[trigger] final(map).inner()@.contains_key(other) <==> old(
                    map,
                ).inner()@.contains_key(other)
                &&& old(map).inner()@.contains_key(other) ==> final(map).inner()@[other] == old(
                    map,
                ).inner()@[other]
            },
        !old(map).inner()@.contains_key(join_key.0@) ==> final(map).inner() == old(map).inner(),
        final(map).inner().capacity() == old(map).inner().capacity(),
        forall|i: int|
            old(map).inner().wf() && 0 <= i < old(map).inner().entries().len() && #[trigger] old(
                map,
            ).inner().entries()[i].0 == join_key.0@ ==> final(map).inner().entries() == seq![
                (join_key.0@, final(map).inner()@[join_key.0@]),
            ] + old(map).inner().entries().remove(i),
        final(map).join_key_data_types() == old(map).join_key_data_types(),
        final(map).pk_indices() == old(map).pk_indices(),
        final(map).current_epoch() == old(map).current_epoch(),
{
    let entries = old(map).inner().entries();
    assert forall|i: int|
        old(map).inner().wf() && 0 <= i < entries.len() && #[trigger] entries[i].0
            == join_key.0@ implies final(map).inner().entries() == seq![
            (join_key.0@, final(map).inner()@[join_key.0@]),
        ] + entries.remove(i) by {
        lemma_place_is_unique(entries, i);
        assert(old(map).inner()@.contains_key(join_key.0@));
        assert(final(map).inner().entries() =~= seq![
            (join_key.0@, final(map).inner()@[join_key.0@]),
        ] + entries.remove(i));
    }
}

/// Taking a row away changes the cached rows of its join key, whatever the key, and no others: where
/// they are cached, they are the rows of before without this primary key, and the join key is the
/// one used last. Where they are not cached, the cache stays as it was.
pub proof fn lemma_delete_reaches_the_cached_rows<
    S,
    D: Fn(&HashKey, &Vec<DataType>) -> RwResult<Row>,
    F: Fn(&Row, &OrderedRowSerializer) -> Vec<u8>,
>(
    map: &mut JoinHashMap<S>,
    join_key: &HashKey,
    pk: Row,
    value: Row,
    deserialize: D,
    serialize_pk: F,
    result: RwResult<()>,
)
    requires
        call_ensures(
            JoinHashMap::<S>::delete::<D, F>,
            (map, join_key, pk, value, deserialize, serialize_pk),
            result,
        ),
    ensures
        old(map).inner()@.contains_key(join_key.0@) ==> {
            &&& final(map).inner()@.contains_key(join_key.0@)
            &&& final(map).inner()@[join_key.0@]@ == old(map).inner()@[join_key.0@]@.remove(pk@)
        },
        forall|other: Seq<u8>|
            other != join_key.0@ ==> {
                &&& #[trigger] final(map).inner()@.contains_key(other) <==> old(
                    map,
                ).inner()@.contains_key(other)
                &&& old(map).inner()@.contains_key(other) ==> final(map).inner()@[other] == old(
                    map,
                ).inner()@[other]
            },
        !old(map).inner()@.contains_key(join_key.0@) ==> final(map).inner() == old(map).inner(),
        final(map).inner().capacity() == old(map).inner().capacity(),
        forall|i: int|
            old(map).inner().wf() && 0 <= i < old(map).inner().entries().len() && #[trigger] old(
                map,
            ).inner().entries()[i].0 == join_key.0@ ==> final(map).inner().entries() == seq![
                (join_key.0@, final(map).inner()@[join_key.0@]),
            ] + old(map).inner().entries().remove(i),
        final(map).join_key_data_types() == old(map).join_key_data_types(),
        final(map).pk_indices() == old(map).pk_indices(),
        final(map).current_epoch() == old(map).current_epoch(),
{
    let entries = old(map).inner().entries();
    assert forall|i: int|
        old(map).inner().wf() && 0 <= i < entries.len() && #[trigger] entries[i].0
            == join_key.0@ implies final(map).inner().entries() == seq![
            (join_key.0@, final(map).inner()@[join_key.0@]),
        ] + entries.remove(i) by {
        lemma_place_is_unique(entries, i);
        assert(old(map).inner()@.contains_key(join_key.0@));
        assert(final(map).inner().entries() =~= seq![
            (join_key.0@, final(map).inner()@[join_key.0@]),
        ] + entries.remove(i));
    }
}

/// A read of a cached join key right after a row was added finds the row, with its degree, under its
/// primary key, and every other row of the join key as it was, whatever was fetched; the read does
/// not depend on what the state table said to the row.
pub proof fn lemma_get_reads_cached_insert<
    'a,
    S,
    D: Fn(&HashKey, &Vec<DataType>) -> RwResult<Row>,
    F: Fn(&Row, &OrderedRowSerializer) -> Vec<u8>,
>(
    map: &mut JoinHashMap<S>,
    later: &'a mut JoinHashMap<S>,
    join_key: &HashKey,
    pk: Row,
    value: JoinRow,
    deserialize: D,
    serialize_pk: F,
    result: RwResult<()>,
    remote: Option<JoinEntryState>,
    state: Option<&'a JoinEntryState>,
    asked: &Row,
    found: Option<&JoinRow>,
)
    requires
        old(map).inner()@.contains_key(join_key.0@),
        call_ensures(
            JoinHashMap::<S>::insert::<D, F>,
            (map, join_key, pk, value, deserialize, serialize_pk),
            result,
        ),
        *old(later) == *final(map),
        call_ensures(JoinHashMap::<S>::get, (later, join_key, remote), state),
    ensures
        state is Some,
        call_ensures(JoinEntryState::get, (state->Some_0, asked), found) ==> {
            &&& asked@ == pk@ ==> (found matches Some(row) && row@.row == value@.row && row@.degree
                == value@.degree)
            &&& asked@ != pk@ ==> match found {
                Some(row) => old(map).inner()@[join_key.0@]@.contains_pair(asked@, row@),
                None => !old(map).inner()@[join_key.0@]@.contains_key(asked@),
            }
        },
{
}

/// A read of a cached join key right after a row was taken away does not find the row, and finds
/// every other row of the join key as it was, whatever was fetched.
pub proof fn lemma_get_reads_cached_delete<
    'a,
    S,
    D: Fn(&HashKey, &Vec<DataType>) -> RwResult<Row>,
    F: Fn(&Row, &OrderedRowSerializer) -> Vec<u8>,
>(
    map: &mut JoinHashMap<S>,
    later: &'a mut JoinHashMap<S>,
    join_key: &HashKey,
    pk: Row,
    value: Row,
    deserialize: D,
    serialize_pk: F,
    result: RwResult<()>,
    remote: Option<JoinEntryState>,
    state: Option<&'a JoinEntryState>,
    asked: &Row,
    found: Option<&JoinRow>,
)
    requires
        old(map).inner()@.contains_key(join_key.0@),
        call_ensures(
            JoinHashMap::<S>::delete::<D, F>,
            (map, join_key, pk, value, deserialize, serialize_pk),
            result,
        ),
        *old(later) == *final(map),
        call_ensures(JoinHashMap::<S>::get, (later, join_key, remote), state),
    ensures
        state is Some,
        call_ensures(JoinEntryState::get, (state->Some_0, asked), found) ==> {
            &&& asked@ == pk@ ==> found is None
            &&& asked@ != pk@ ==> match found {
                Some(row) => old(map).inner()@[join_key.0@]@.contains_pair(asked@, row@),
                None => !old(map).inner()@[join_key.0@]@.contains_key(asked@),
            }
        },
{
}

/// A row that is added goes to the state table with its degree behind its columns, under the key
/// that the encoding function returned for its primary key columns, provided that the join key can
/// be decoded: as an insert where nothing is buffered under the key, and as an update where a
/// deletion is. It is refused, and the buffer stays, exactly where a row is buffered there. Where the
/// join key cannot be decoded, that error comes back and the table stays as it was.
pub proof fn lemma_insert_reaches_the_table<
    S,
    D: Fn(&HashKey, &Vec<DataType>) -> RwResult<Row>,
    F: Fn(&Row, &OrderedRowSerializer) -> Vec<u8>,
>(
    map: &mut JoinHashMap<S>,
    join_key: &HashKey,
    pk: Row,
    value: JoinRow,
    deserialize: D,
    serialize_pk: F,
    result: RwResult<()>,
    key_of: spec_fn(RowView) -> Seq<u8>,
)
    requires
        forall|row: Row, serializer: OrderedRowSerializer, bytes: Vec<u8>|
            serializer.order_types@ == old(map).state_table().order_types()
                && #[trigger] call_ensures(serialize_pk, (&row, &serializer), bytes) ==> bytes@
                == key_of(row@),
        call_ensures(
            JoinHashMap::<S>::insert::<D, F>,
            (map, join_key, pk, value, deserialize, serialize_pk),
            result,
        ),
    ensures
        exists|decoded: RwResult<Row>|
            {
                &&& #[trigger] call_ensures(
                    deserialize,
                    (join_key, &old(map).join_key_data_types()),
                    decoded,
                )
                &&& decoded matches Err(error) ==> result == Err::<(), RwError>(error) && final(map).state_table() == old(map).state_table()
                &&& decoded is Ok ==> {
                    let indices = old(map).pk_indices();
                    let row = value@.row.push(Some(ScalarView::Int64(value@.degree)));
                    let key = key_of(Seq::new(indices.len(), |i: int| row[indices[i] as int]));
                    let before = old(map).state_table().mem_table()@;
                    let after = final(map).state_table().mem_table()@;
                    if before.contains_key(key) {
                        match before[key] {
                            RowOpView::Delete(stored) => result is Ok && after == before.insert(
                                key,
                                RowOpView::Update(stored, row),
                            ),
                            _ => after == before && result == Err::<(), RwError>(
                                RwError::StorageError(
                                    Box::new(StorageError::StateTable(RwError::DoubleInsert)),
                                ),
                            ),
                        }
                    } else {
                        result is Ok && after == before.insert(key, RowOpView::Insert(row))
                    }
                }
            },
        final(map).state_table().keyspace() == old(map).state_table().keyspace(),
        final(map).state_table().pk_serializer() == old(map).state_table().pk_serializer(),
        final(map).state_table().column_descs() == old(map).state_table().column_descs(),
        final(map).state_table().pk_indices() == old(map).state_table().pk_indices(),
{
    let indices = old(map).pk_indices();
    let row = value@.row.push(Some(ScalarView::Int64(value@.degree)));
    assert(project(row, indices) =~= Seq::new(indices.len(), |i: int| row[indices[i] as int]));
}

/// A row that is taken away is deleted from the state table under the key that the encoding function
/// returned for its primary key columns, provided that the join key can be decoded: as a deletion
/// where nothing is buffered under the key; an insert is taken back; and an update gives way to the
/// deletion of the stored row. It is refused, and the buffer stays, exactly where a deletion is
/// buffered there. Where the join key cannot be decoded, that error comes back and the table stays
/// as it was.
pub proof fn lemma_delete_reaches_the_table<
    S,
    D: Fn(&HashKey, &Vec<DataType>) -> RwResult<Row>,
    F: Fn(&Row, &OrderedRowSerializer) -> Vec<u8>,
>(
    map: &mut JoinHashMap<S>,
    join_key: &HashKey,
    pk: Row,
    value: Row,
    deserialize: D,
    serialize_pk: F,
    result: RwResult<()>,
    key_of: spec_fn(RowView) -> Seq<u8>,
)
    requires
        forall|row: Row, serializer: OrderedRowSerializer, bytes: Vec<u8>|
            serializer.order_types@ == old(map).state_table().order_types()
                && #[trigger] call_ensures(serialize_pk, (&row, &serializer), bytes) ==> bytes@
                == key_of(row@),
        call_ensures(
            JoinHashMap::<S>::delete::<D, F>,
            (map, join_key, pk, value, deserialize, serialize_pk),
            result,
        ),
    ensures
        exists|decoded: RwResult<Row>|
            {
                &&& #[trigger] call_ensures(
                    deserialize,
                    (join_key, &old(map).join_key_data_types()),
                    decoded,
                )
                &&& decoded matches Err(error) ==> result == Err::<(), RwError>(error) && final(map).state_table() == old(map).state_table()
                &&& decoded is Ok ==> {
                    let indices = old(map).pk_indices();
                    let key = key_of(Seq::new(indices.len(), |i: int| value@[indices[i] as int]));
                    let before = old(map).state_table().mem_table()@;
                    let after = final(map).state_table().mem_table()@;
                    if before.contains_key(key) {
                        match before[key] {
                            RowOpView::Insert(_) => result is Ok && after == before.remove(key),
                            RowOpView::Update(stored, _) => result is Ok && after == before.insert(
                                key,
                                RowOpView::Delete(stored),
                            ),
                            RowOpView::Delete(_) => after == before && result == Err::<
                                (),
                                RwError,
                            >(
                                RwError::StorageError(
                                    Box::new(StorageError::StateTable(RwError::DoubleDelete)),
                                ),
                            ),
                        }
                    } else {
                        result is Ok && after == before.insert(key, RowOpView::Delete(value@))
                    }
                }
            },
        final(map).state_table().keyspace() == old(map).state_table().keyspace(),
        final(map).state_table().pk_serializer() == old(map).state_table().pk_serializer(),
        final(map).state_table().column_descs() == old(map).state_table().column_descs(),
        final(map).state_table().pk_indices() == old(map).state_table().pk_indices(),
{
    let indices = old(map).pk_indices();
    assert(project(value@, indices) =~= Seq::new(
        indices.len(),
        |i: int| value@[indices[i] as int],
    ));
}

/// A read of a join key gives the cached rows where they are cached, whatever was fetched, and
/// otherwise those that were fetched, which are cached from then on; where none were fetched, it
/// gives none and nothing changes. No other join key loses or changes its cached rows, and the state
/// table stays as it was.
pub proof fn lemma_get_prefers_the_cache<'a, S>(
    map: &'a mut JoinHashMap<S>,
    key: &HashKey,
    remote: Option<JoinEntryState>,
    state: Option<&'a JoinEntryState>,
)
    requires
        call_ensures(JoinHashMap::<S>::get, (map, key, remote), state),
    ensures
        old(map).inner()@.contains_key(key.0@) ==> {
            &&& state matches Some(found) && *found == old(map).inner()@[key.0@]
            &&& final(map).inner()@ == old(map).inner()@
        },
        !old(map).inner()@.contains_key(key.0@) ==> match remote {
            Some(remote) => {
                &&& state matches Some(found) && *found == remote
                &&& final(map).inner()@ == old(map).inner()@.insert(key.0@, remote)
            },
            None => state is None && final(map).inner() == old(map).inner(),
        },
        forall|i: int|
            old(map).inner().wf() && 0 <= i < old(map).inner().entries().len() && #[trigger] old(
                map,
            ).inner().entries()[i].0 == key.0@ ==> final(map).inner().entries() == seq![
                old(map).inner().entries()[i],
            ] + old(map).inner().entries().remove(i),
        !old(map).inner()@.contains_key(key.0@) && remote is Some ==> final(map).inner().entries() == seq![(key.0@, remote->Some_0)] + old(map).inner().entries(),
        final(map).inner().capacity() == old(map).inner().capacity(),
        final(map).state_table() == old(map).state_table(),
        final(map).current_epoch() == old(map).current_epoch(),
        final(map).pk_indices() == old(map).pk_indices(),
        final(map).join_key_data_types() == old(map).join_key_data_types(),
{
    let entries = old(map).inner().entries();
    assert forall|i: int|
        old(map).inner().wf() && 0 <= i < entries.len() && #[trigger] entries[i].0
            == key.0@ implies final(map).inner().entries() == seq![entries[i]] + entries.remove(
        i,
    ) by {
        lemma_place_is_unique(entries, i);
        assert(old(map).inner()@.contains_key(key.0@));
    }
    if !old(map).inner()@.contains_key(key.0@) && remote is Some {
        assert(final(map).inner().entries() =~= seq![(key.0@, remote->Some_0)] + entries);
    }
}

/// A read of a join key that may change its rows starts from the cached rows where they are cached,
/// and otherwise from those that were fetched; what they have become is cached from then on. Where
/// none were fetched, it gives none and nothing changes. No other join key loses or changes its
/// cached rows, and the state table stays as it was.
pub proof fn lemma_get_mut_prefers_the_cache<'a, S>(
    map: &'a mut JoinHashMap<S>,
    key: &HashKey,
    remote: Option<JoinEntryState>,
    state: Option<&'a mut JoinEntryState>,
)
    requires
        call_ensures(JoinHashMap::<S>::get_mut, (map, key, remote), state),
    ensures
        state is None <==> !old(map).inner()@.contains_key(key.0@) && remote is None,
        state is None ==> final(map).inner() == old(map).inner(),
        state is Some ==> {
            &&& *state->Some_0 == if old(map).inner()@.contains_key(key.0@) {
                old(map).inner()@[key.0@]
            } else {
                remote->Some_0
            }
            &&& final(map).inner()@ == old(map).inner()@.insert(key.0@, *final(state->Some_0))
        },
        forall|i: int|
            old(map).inner().wf() && 0 <= i < old(map).inner().entries().len() && #[trigger] old(
                map,
            ).inner().entries()[i].0 == key.0@ ==> final(map).inner().entries() == seq![
                (key.0@, *final(state->Some_0)),
            ] + old(map).inner().entries().remove(i),
        !old(map).inner()@.contains_key(key.0@) && remote is Some ==> final(map).inner().entries()
            == seq![(key.0@, *final(state->Some_0))] + old(map).inner().entries(),
        final(map).inner().capacity() == old(map).inner().capacity(),
        final(map).state_table() == old(map).state_table(),
        final(map).current_epoch() == old(map).current_epoch(),
        final(map).pk_indices() == old(map).pk_indices(),
        final(map).join_key_data_types() == old(map).join_key_data_types(),
{
    let entries = old(map).inner().entries();
    assert forall|i: int|
        old(map).inner().wf() && 0 <= i < entries.len() && #[trigger] entries[i].0
            == key.0@ implies final(map).inner().entries() == seq![
            (key.0@, *final(state->Some_0)),
        ] + entries.remove(i) by {
        lemma_place_is_unique(entries, i);
        assert(old(map).inner()@.contains_key(key.0@));
        assert(final(map).inner().entries() =~= seq![(key.0@, *final(state->Some_0))]
            + entries.remove(i));
    }
    if !old(map).inner()@.contains_key(key.0@) && remote is Some {
        assert(final(map).inner().entries() =~= seq![(key.0@, *final(state->Some_0))] + entries);
    }
}

/// A join key has rows where they are cached or some were fetched; those that were fetched are
/// cached from then on, where none were. Asking whether they are cached changes nothing.
pub proof fn lemma_contains_looks_at_both<S>(
    map: &mut JoinHashMap<S>,
    key: &HashKey,
    remote: Option<JoinEntryState>,
    cached: bool,
    contains: bool,
)
    requires
        call_ensures(JoinHashMap::<S>::is_cached, (&*old(map), key), cached),
        call_ensures(JoinHashMap::<S>::contains, (map, key, remote), contains),
    ensures
        cached <==> old(map).inner()@.contains_key(key.0@),
        contains <==> cached || remote is Some,
        cached || remote is None ==> final(map).inner() == old(map).inner(),
        !cached && remote is Some ==> final(map).inner()@ == old(map).inner()@.insert(
            key.0@,
            remote->Some_0,
        ),
        !cached && remote is Some ==> final(map).inner().entries() == seq![
            (key.0@, remote->Some_0),
        ] + old(map).inner().entries(),
        final(map).state_table() == old(map).state_table(),
        final(map).current_epoch() == old(map).current_epoch(),
        final(map).pk_indices() == old(map).pk_indices(),
{
    if !cached && remote is Some {
        assert(final(map).inner().entries() =~= seq![(key.0@, remote->Some_0)] + old(
            map,
        ).inner().entries());
    }
}

/// The rows of a join key are looked for under the keys that are the table's prefix, then what the
/// encoding function returned for the decoded join key, all of whose columns descend, then anything,
/// and under no others, as of the current epoch; and among the operations that are buffered under
/// such keys. Where the join key cannot be decoded, that error comes back.
pub proof fn lemma_rows_are_looked_for_under_the_join_key<
    'a,
    S,
    D: Fn(&HashKey, &Vec<DataType>) -> RwResult<Row>,
    F: Fn(&Row, &OrderedRowSerializer) -> Vec<u8>,
>(
    map: &'a JoinHashMap<S>,
    key: &HashKey,
    deserialize: D,
    serialize_pk: F,
    scan: RwResult<StateTableRowIter<'a, S>>,
    decoded: RwResult<Row>,
    beginning: Seq<u8>,
    stored_key: Seq<u8>,
    table_key: Seq<u8>,
    op: RowOpView,
)
    requires
        forall|other: RwResult<Row>| #[trigger]
            call_ensures(deserialize, (key, &map.join_key_data_types()), other) ==> other
                == decoded,
        decoded matches Ok(row) ==> forall|
            same: Row,
            serializer: OrderedRowSerializer,
            bytes: Vec<u8>,
        |
            same@ == row@ && serializer.order_types@ == Seq::new(
                row@.len(),
                |i: int| OrderType::Descending,
            ) && #[trigger] call_ensures(serialize_pk, (&same, &serializer), bytes) ==> bytes@
                == beginning,
        call_ensures(
            JoinHashMap::<S>::cached_state_scan::<D, F>,
            (map, key, deserialize, serialize_pk),
            scan,
        ),
    ensures
        match decoded {
            Err(error) => scan matches Err(thrown) && thrown == error,
            Ok(_) => scan is Ok,
        },
        scan matches Ok(iter) ==> {
            &&& *iter.keyspace == map.state_table().keyspace()
            &&& iter.epoch == map.current_epoch()
            &&& iter.table_descs == map.state_table().column_mapping()
            &&& admits((iter.cell_based_bounds.0@, iter.cell_based_bounds.1@), stored_key)
                <==> exists|rest: Seq<u8>|
                stored_key == #[trigger] (map.state_table().keyspace().prefix@ + beginning + rest)
            &&& iter.rest().contains((table_key, op)) <==> {
                &&& map.state_table().mem_table()@.contains_pair(table_key, op)
                &&& exists|rest: Seq<u8>| table_key == #[trigger] (beginning + rest)
            }
            &&& forall|i: int, j: int|
                0 <= i < j < iter.rest().len() ==> key_lt(
                    #[trigger] iter.rest()[i].0,
                    #[trigger] iter.rest()[j].0,
                )
        },
{
    if scan is Ok && decoded is Ok {
        let iter = scan->Ok_0;
        let row = decoded->Ok_0;
        let prefix = map.state_table().keyspace().prefix@;
        assert(descending(row@.len()) =~= Seq::new(
            row@.len(),
            |i: int| OrderType::Descending,
        ));
        assert(map.state_table().is_scan(
            iter,
            prefix_bounds(prefix + beginning),
            prefix_bounds(beginning),
            map.current_epoch(),
        ));
        lemma_prefix_bounds(prefix + beginning, stored_key);
        lemma_prefix_is_the_beginning(prefix + beginning, stored_key);
        lemma_prefix_bounds(beginning, table_key);
        lemma_prefix_is_the_beginning(beginning, table_key);
        let rest = iter.rest();
        lemma_sorted_distinct(rest);
        lemma_to_map(rest);
        if rest.contains((table_key, op)) {
            let i = choose|i: int| 0 <= i < rest.len() && rest[i] == (table_key, op);
            assert(rest[i].0 == table_key);
        }
        if map.state_table().mem_table()@.contains_pair(table_key, op) && has_prefix(
            table_key,
            beginning,
        ) {
            assert(to_map(rest).contains_key(table_key));
            assert(rest[place_of(rest, table_key)] == (table_key, op));
        }
    }
}

/// What a stream yields before its first error, item by item.
proof fn lemma_yielded_item_by_item(items: Seq<StorageResult<Row>>, n: int)
    requires
        0 <= n <= items.len(),
        forall|i: int| 0 <= i < n ==> #[trigger] items[i] is Ok,
        n < items.len() ==> items[n] is Err,
    ensures
        rows_yielded(items).len() == n,
        forall|i: int| 0 <= i < n ==> #[trigger] rows_yielded(items)[i] == items[i]->Ok_0@,
        stream_failure(items) == if n < items.len() {
            Some(items[n]->Err_0)
        } else {
            None
        },
    decreases items.len(),
{
    if n > 0 {
        let rest = items.skip(1);
        assert(items[0] is Ok);
        assert forall|i: int| 0 <= i < n - 1 implies #[trigger] rest[i] is Ok by {
            assert(rest[i] == items[i + 1]);
        }
        lemma_yielded_item_by_item(rest, n - 1);
        assert forall|i: int| 0 <= i < n implies #[trigger] rows_yielded(items)[i]
            == items[i]->Ok_0@ by {
            if i > 0 {
                assert(rows_yielded(items)[i] == rows_yielded(rest)[i - 1]);
                assert(rest[i - 1] == items[i]);
            }
        }
    }
}

/// Of the rows with the same primary key the last is the one that an entry has.
proof fn lemma_last_row_counts(rows: Seq<RowView>, pk_indices: Seq<usize>, i: int)
    requires
        0 <= i < rows.len(),
        forall|j: int|
            i < j < rows.len() ==> project(#[trigger] rows[j], pk_indices) != project(
                rows[i],
                pk_indices,
            ),
    ensures
        entry_of(rows, pk_indices).contains_pair(
            project(rows[i], pk_indices),
            split_degree(rows[i]),
        ),
    decreases rows.len(),
{
    let shorter = rows.drop_last();
    let last = rows.len() - 1;
    if i < last {
        assert forall|j: int| i < j < shorter.len() implies project(
            #[trigger] shorter[j],
            pk_indices,
        ) != project(shorter[i], pk_indices) by {
            assert(shorter[j] == rows[j]);
        }
        lemma_last_row_counts(shorter, pk_indices, i);
        assert(project(rows[last], pk_indices) != project(rows[i], pk_indices));
    }
}

/// What is fetched is made of the rows of a scan, one for one: each row stands under its primary key
/// columns, with its last column as its degree and the columns before it as its columns, and of rows
/// with the same primary key the last counts; nothing else is there, and nothing at all where the
/// scan yielded no row. Where the scan failed, that error comes back. Any rows that have the primary
/// key columns and end in a number can be fetched.
pub proof fn lemma_fetch_takes_the_rows<S>(
    map: JoinHashMap<S>,
    rows: Vec<StorageResult<Row>>,
    n: int,
    state: RwResult<Option<JoinEntryState>>,
    i: int,
    pk: RowView,
)
    requires
        0 <= n <= rows@.len(),
        forall|j: int| 0 <= j < n ==> #[trigger] rows@[j] is Ok,
        n < rows@.len() ==> rows@[n] is Err,
    ensures
        (forall|j: int|
            0 <= j < n ==> {
                &&& (#[trigger] rows@[j])->Ok_0@.len() > 0
                &&& rows@[j]->Ok_0@[rows@[j]->Ok_0@.len() - 1] matches Some(ScalarView::Int64(_))
                &&& forall|k: int|
                    0 <= k < map.pk_indices().len() ==> (#[trigger] map.pk_indices()[k])
                        < rows@[j]->Ok_0@.len()
            }) ==> call_requires(JoinHashMap::<S>::fetch_cached_state, (&map, rows)),
        call_ensures(JoinHashMap::<S>::fetch_cached_state, (&map, rows), state) ==> {
            &&& n < rows@.len() ==> state == Err::<Option<JoinEntryState>, RwError>(
                RwError::StorageError(Box::new(rows@[n]->Err_0)),
            )
            &&& rows@.len() == 0 ==> state == Ok::<Option<JoinEntryState>, RwError>(None)
            &&& n == rows@.len() && n > 0 ==> state is Ok && state->Ok_0 is Some
        },
        // What the entry has, and what it has not.
        call_ensures(JoinHashMap::<S>::fetch_cached_state, (&map, rows), state) && n == rows@.len()
            && n > 0 && state->Ok_0->Some_0@.contains_key(pk) ==> exists|j: int|
            0 <= j < n && (#[trigger] rows@[j]) is Ok && pk.len() == map.pk_indices().len()
                && forall|k: int|
                0 <= k < pk.len() ==> #[trigger] pk[k] == rows@[j]->Ok_0@[map.pk_indices()[k] as int],
        // The last of the rows with the primary key.
        ({
            &&& call_ensures(JoinHashMap::<S>::fetch_cached_state, (&map, rows), state)
            &&& n == rows@.len() && 0 <= i < n
            &&& pk.len() == map.pk_indices().len()
            &&& forall|k: int|
                0 <= k < pk.len() ==> #[trigger] pk[k] == rows@[i]->Ok_0@[map.pk_indices()[k] as int]
            &&& forall|j: int|
                i < j < n ==> exists|k: int|
                    0 <= k < pk.len() && #[trigger] pk[k] != (
                    #[trigger] rows@[j])->Ok_0@[map.pk_indices()[k] as int]
        }) ==> {
            let row = rows@[i]->Ok_0@;
            let entry = state->Ok_0->Some_0@;
            &&& entry.contains_key(pk)
            &&& entry[pk].row == row.drop_last()
            &&& row[row.len() - 1] matches Some(ScalarView::Int64(degree)) ==> entry[pk].degree
                == degree
        },
{
    let indices = map.pk_indices();
    let all = rows_yielded(rows@);
    lemma_yielded_item_by_item(rows@, n);
    if call_ensures(JoinHashMap::<S>::fetch_cached_state, (&map, rows), state) && n == rows@.len()
        && n > 0 {
        lemma_entry_keys(all, indices, pk);
        if state->Ok_0->Some_0@.contains_key(pk) {
            assert(has_pk(all, indices, pk));
            let j = choose|j: int| 0 <= j < all.len() && project(#[trigger] all[j], indices) == pk;
            assert(rows@[j] is Ok);
            assert(all[j] == rows@[j]->Ok_0@);
        }
        let is_last = {
            &&& 0 <= i < n
            &&& pk.len() == indices.len()
            &&& forall|k: int|
                0 <= k < pk.len() ==> #[trigger] pk[k] == rows@[i]->Ok_0@[indices[k] as int]
            &&& forall|j: int|
                i < j < n ==> exists|k: int|
                    0 <= k < pk.len() && #[trigger] pk[k] != (
                    #[trigger] rows@[j])->Ok_0@[indices[k] as int]
        };
        if is_last {
            assert(all[i] == rows@[i]->Ok_0@);
            assert(project(all[i], indices) =~= pk);
            assert forall|j: int| i < j < all.len() implies project(#[trigger] all[j], indices)
                != project(all[i], indices) by {
                assert(all[j] == rows@[j]->Ok_0@);
                let k = choose|k: int|
                    0 <= k < pk.len() && #[trigger] pk[k] != rows@[j]->Ok_0@[indices[k] as int];
                assert(project(all[j], indices)[k] != pk[k]);
            }
            lemma_last_row_counts(all, indices, i);
        }
    }
}

/// A flush hands over what is buffered, one operation for each key, in the order of the keys, as of
/// the epoch that the map was moved to, with the metadata of the values; nothing is buffered any
/// more, and the cached rows stay. Its outcome is that of the store.
pub proof fn lemma_flush_hands_over_the_buffer<S>(
    map: &mut JoinHashMap<S>,
    later: &mut JoinHashMap<S>,
    epoch: u64,
    batch: WriteBatch,
    written: StorageResult<()>,
    result: RwResult<()>,
    key: Seq<u8>,
    op: RowOpView,
)
    requires
        call_ensures(JoinHashMap::<S>::update_epoch, (map, epoch), ()),
        *old(later) == *final(map),
        call_ensures(JoinHashMap::<S>::flush, (later,), batch),
        call_ensures(JoinHashMap::<S>::flush_result, (written,), result),
    ensures
        batch.epoch == epoch,
        batch.with_value_meta,
        forall|i: int, j: int|
            0 <= i < j < batch.rows@.len() ==> key_lt(
                #[trigger] batch.rows@[i].0@,
                #[trigger] batch.rows@[j].0@,
            ),
        old(map).state_table().mem_table()@.contains_pair(key, op) <==> exists|i: int|
            0 <= i < batch.rows@.len() && #[trigger] batch.rows@[i].0@ == key
                && batch.rows@[i].1.deep_view() == op,
        final(later).state_table().mem_table()@ == Map::<Seq<u8>, RowOpView>::empty(),
        final(later).inner() == old(map).inner(),
        final(later).current_epoch() == epoch,
        final(later).pk_indices() == old(map).pk_indices(),
        final(later).join_key_data_types() == old(map).join_key_data_types(),
        final(later).state_table().keyspace() == old(map).state_table().keyspace(),
        final(later).state_table().pk_serializer() == old(map).state_table().pk_serializer(),
        written is Ok <==> result is Ok,
        written matches Err(error) ==> result == Err::<(), RwError>(
            RwError::StorageError(Box::new(error)),
        ),
{
    lemma_listed_operations(batch.rows@, key, op);
}

/// A new map has no rows, cached or buffered, and stands at epoch zero. Its table has the columns of
/// the given types, numbered from zero, all of them descending in keys; and the columns of the join
/// key have the types at the given indices.
pub proof fn lemma_new_map_is_set_up<S>(
    target_cap: usize,
    pk_indices: Vec<usize>,
    join_key_indices: Vec<usize>,
    data_types: Vec<DataType>,
    keyspace: Keyspace<S>,
    dist_key_indices: Option<Vec<usize>>,
    map: JoinHashMap<S>,
    i: int,
)
    ensures
        (forall|k: int|
            0 <= k < join_key_indices@.len() ==> (#[trigger] join_key_indices@[k])
                < data_types@.len()) ==> call_requires(
            JoinHashMap::<S>::new,
            (target_cap, pk_indices, join_key_indices, data_types, keyspace, dist_key_indices),
        ),
        call_ensures(
            JoinHashMap::<S>::new,
            (target_cap, pk_indices, join_key_indices, data_types, keyspace, dist_key_indices),
            map,
        ) ==> {
            &&& map.inner().entries().len() == 0
            &&& map.inner().capacity() == target_cap
            &&& map.state_table().mem_table()@ == Map::<Seq<u8>, RowOpView>::empty()
            &&& map.current_epoch() == 0
            &&& map.pk_indices() == pk_indices@
            &&& map.state_table().pk_indices() == pk_indices@
            &&& map.state_table().keyspace() == keyspace
            &&& map.state_table().column_descs().len() == data_types@.len()
            &&& 0 <= i < data_types@.len() ==> map.state_table().column_descs()[i].data_type
                == data_types@[i]
            &&& 0 <= i < data_types@.len() && i <= i32::MAX
                ==> map.state_table().column_descs()[i].column_id.0 == i
            &&& map.state_table().order_types().len() == data_types@.len()
            &&& 0 <= i < data_types@.len() ==> map.state_table().order_types()[i]
                == OrderType::Descending
            &&& map.join_key_data_types()@.len() == join_key_indices@.len()
            &&& 0 <= i < join_key_indices@.len() ==> map.join_key_data_types()@[i]
                == data_types@[join_key_indices@[i] as int]
            &&& match dist_key_indices {
                Some(indices) => map.state_table().dist_key_indices() == Some(indices@),
                None => map.state_table().dist_key_indices() is None,
            }
        },
{
    if dist_key_indices is Some {
        assert(dist_key_indices->Some_0.deep_view() =~= dist_key_indices->Some_0@);
    }
}

/// What a map lends out is its own cache: what is changed in it is changed in the map, and nothing
/// else is.
pub proof fn lemma_map_lends_its_cache<'a, S>(
    map: &'a mut JoinHashMap<S>,
    inner: &'a mut EvictableHashMap<JoinEntryState>,
)
    requires
        call_ensures(<JoinHashMap<S> as DerefMut>::deref_mut, (map,), inner),
    ensures
        *old(inner) == old(map).inner(),
        final(map).inner() == *final(inner),
        final(map).state_table() == old(map).state_table(),
        final(map).current_epoch() == old(map).current_epoch(),
        final(map).pk_indices() == old(map).pk_indices(),
        final(map).join_key_data_types() == old(map).join_key_data_types(),
{
}

} // verus!
