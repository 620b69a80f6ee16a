//! What callers of a state table can rely on, said of the calls themselves: which key a row stands
//! under, what a read finds after a write, what a commit hands over, and what a scan asks storage
//! for and yields.

use vstd::prelude::*;
use crate::catalog::{ColumnDesc, OrderType, OrderedRowSerializer};
use crate::entries::{lemma_sorted_distinct, lemma_to_map, place_of, to_map};
use crate::error::{RwError, StorageError, StorageResult};
use crate::key::{
    admits, in_order, key_lt, lemma_prefix_bounds,
    lemma_prefix_is_the_beginning, prefix_bounds, Bound, Keyspace,
};
use crate::mem_table::{lemma_listed_operations, RowOpView};
use crate::row::{Row, RowView};
use crate::row_iter::{lemma_scan_sees_the_buffer, StateTableRowIter};
use crate::state_table::{
    encodable, encodable_bound, encodes, encodes_bound, lemma_prefixed_bounds,
    RowLookup, StateTableExtended, WriteBatch,
};

verus! {

/// A key row is encoded as the encoding function does it, on a row with its columns and a serializer
/// with these directions, and the key is what the function returned, byte for byte; and a key row
/// can be encoded wherever the function can be called on it.
pub proof fn lemma_encoding_is_the_call<F: Fn(&Row, &OrderedRowSerializer) -> Vec<u8>>(
    serialize_pk: F,
    pk: RowView,
    order_types: Seq<OrderType>,
    key: Seq<u8>,
)
    ensures
        encodes(serialize_pk, pk, order_types, key) <==> exists|
            row: Row,
            serializer: OrderedRowSerializer,
            bytes: Vec<u8>,
        |
            {
                &&& row@ == pk
                &&& serializer.order_types@ == order_types
                &&& bytes@ == key
                &&& #[trigger] call_ensures(serialize_pk, (&row, &serializer), bytes)
            },
        encodable(serialize_pk, pk, order_types) <==> forall|
            row: Row,
            serializer: OrderedRowSerializer,
        |
            row@ == pk && serializer.order_types@ == order_types ==> #[trigger] call_requires(
                serialize_pk,
                (&row, &serializer),
            ),
{
}

/// A lookup goes by the key that the encoding function returned for the key row. An inserted or
/// updated row is found as it was written, a deleted one is known to be gone, and for a key without
/// an operation storage is to be asked as of the epoch that was given.
pub proof fn lemma_get_row_goes_by_the_key<
    S,
    SER,
    F: Fn(&Row, &OrderedRowSerializer) -> Vec<u8>,
>(
    table: StateTableExtended<S, SER>,
    pk: &Row,
    epoch: u64,
    serialize_pk: F,
    found: RowLookup,
)
    requires
        call_ensures(
            StateTableExtended::<S, SER>::get_row::<F>,
            (&table, pk, epoch, serialize_pk),
            found,
        ),
    ensures
        exists|key: Vec<u8>|
            {
                &&& #[trigger] call_ensures(serialize_pk, (pk, &table.pk_serializer()), key)
                &&& if table.mem_table()@.contains_key(key@) {
                    match table.mem_table()@[key@] {
                        RowOpView::Insert(row) => found matches RowLookup::Buffered(Some(buffered))
                            && buffered@ == row,
                        RowOpView::Update(_, row) => found matches RowLookup::Buffered(
                            Some(buffered),
                        ) && buffered@ == row,
                        RowOpView::Delete(_) => found matches RowLookup::Buffered(None),
                    }
                } else {
                    found matches RowLookup::Stored { epoch: at } && at == epoch
                }
            },
{
}

/// What is found: the buffer's answer where it has one, and storage's answer, as it is, where it has
/// none.
pub proof fn lemma_answer_of_a_lookup(
    found: RowLookup,
    stored: StorageResult<Option<Row>>,
    row: StorageResult<Option<Row>>,
)
    requires
        call_ensures(RowLookup::resolve, (found, stored), row),
    ensures
        match found {
            RowLookup::Buffered(buffered) => row == Ok::<Option<Row>, StorageError>(buffered),
            RowLookup::Stored { .. } => row == stored,
        },
{
}

/// A row is buffered whole under the key that the encoding function returned for its key columns: as
/// an insert where nothing is buffered there, and as an update where a deletion is. It is refused,
/// and nothing changes, exactly where a row is buffered there. No other key is touched, and the
/// table stays otherwise as it was.
pub proof fn lemma_insert_goes_by_the_key<
    S,
    SER,
    F: Fn(&Row, &OrderedRowSerializer) -> Vec<u8>,
>(
    table: &mut StateTableExtended<S, SER>,
    value: Row,
    serialize_pk: F,
    result: StorageResult<()>,
)
    requires
        call_ensures(
            StateTableExtended::<S, SER>::insert::<F>,
            (table, value, serialize_pk),
            result,
        ),
    ensures
        exists|pk: Row, key: Vec<u8>|
            {
                &&& pk@.len() == old(table).pk_indices().len()
                &&& forall|i: int|
                    0 <= i < pk@.len() ==> #[trigger] pk@[i] == value@[old(
                        table,
                    ).pk_indices()[i] as int]
                &&& #[trigger] call_ensures(serialize_pk, (&pk, &old(table).pk_serializer()), key)
                &&& if old(table).mem_table()@.contains_key(key@) {
                    match old(table).mem_table()@[key@] {
                        RowOpView::Delete(stored) => result is Ok && final(table).mem_table()@
                            == old(table).mem_table()@.insert(
                            key@,
                            RowOpView::Update(stored, value@),
                        ),
                        _ => result == Err::<(), StorageError>(
                            StorageError::StateTable(RwError::DoubleInsert),
                        ) && final(table).mem_table()@ == old(table).mem_table()@,
                    }
                } else {
                    result is Ok && final(table).mem_table()@ == old(table).mem_table()@.insert(
                        key@,
                        RowOpView::Insert(value@),
                    )
                }
            },
        final(table).keyspace() == old(table).keyspace(),
        final(table).column_mapping() == old(table).column_mapping(),
        final(table).column_descs() == old(table).column_descs(),
        final(table).pk_serializer() == old(table).pk_serializer(),
        final(table).dist_key_indices() == old(table).dist_key_indices(),
        final(table).pk_indices() == old(table).pk_indices(),
{
}

/// The deletion of a row is buffered under the key that the encoding function returned for its key
/// columns: as the deletion of the row where nothing is buffered there; an insert is taken back; and
/// an update gives way to the deletion of the stored row. It is refused, and nothing changes,
/// exactly where a deletion is buffered there. No other key is touched, and the table stays
/// otherwise as it was.
pub proof fn lemma_delete_goes_by_the_key<
    S,
    SER,
    F: Fn(&Row, &OrderedRowSerializer) -> Vec<u8>,
>(
    table: &mut StateTableExtended<S, SER>,
    old_value: Row,
    serialize_pk: F,
    result: StorageResult<()>,
)
    requires
        call_ensures(
            StateTableExtended::<S, SER>::delete::<F>,
            (table, old_value, serialize_pk),
            result,
        ),
    ensures
        exists|pk: Row, key: Vec<u8>|
            {
                &&& pk@.len() == old(table).pk_indices().len()
                &&& forall|i: int|
                    0 <= i < pk@.len() ==> #[trigger] pk@[i] == old_value@[old(
                        table,
                    ).pk_indices()[i] as int]
                &&& #[trigger] call_ensures(serialize_pk, (&pk, &old(table).pk_serializer()), key)
                &&& if old(table).mem_table()@.contains_key(key@) {
                    match old(table).mem_table()@[key@] {
                        RowOpView::Insert(_) => result is Ok && final(table).mem_table()@ == old(
                            table,
                        ).mem_table()@.remove(key@),
                        RowOpView::Update(stored, _) => result is Ok && final(table).mem_table()@
                            == old(table).mem_table()@.insert(key@, RowOpView::Delete(stored)),
                        RowOpView::Delete(_) => result == Err::<(), StorageError>(
                            StorageError::StateTable(RwError::DoubleDelete),
                        ) && final(table).mem_table()@ == old(table).mem_table()@,
                    }
                } else {
                    result is Ok && final(table).mem_table()@ == old(table).mem_table()@.insert(
                        key@,
                        RowOpView::Delete(old_value@),
                    )
                }
            },
        final(table).keyspace() == old(table).keyspace(),
        final(table).column_mapping() == old(table).column_mapping(),
        final(table).column_descs() == old(table).column_descs(),
        final(table).pk_serializer() == old(table).pk_serializer(),
        final(table).dist_key_indices() == old(table).dist_key_indices(),
        final(table).pk_indices() == old(table).pk_indices(),
{
}

/// Where the encoding function can be called on any key row, a table takes any row that has its key
/// columns, for an insert and for a delete, and any key row for a lookup.
pub proof fn lemma_table_takes_any_row<S, SER, F: Fn(&Row, &OrderedRowSerializer) -> Vec<u8>>(
    table: &mut StateTableExtended<S, SER>,
    value: Row,
    pk: &Row,
    epoch: u64,
    serialize_pk: F,
)
    requires
        old(table).wf(),
        forall|row: Row, serializer: OrderedRowSerializer| #[trigger]
            call_requires(serialize_pk, (&row, &serializer)),
    ensures
        (forall|i: int|
            0 <= i < old(table).pk_indices().len() ==> (#[trigger] old(table).pk_indices()[i])
                < value@.len()) ==> {
            &&& call_requires(
                StateTableExtended::<S, SER>::insert::<F>,
                (table, value, serialize_pk),
            )
            &&& call_requires(
                StateTableExtended::<S, SER>::delete::<F>,
                (table, value, serialize_pk),
            )
        },
        call_requires(
            StateTableExtended::<S, SER>::get_row::<F>,
            (&*old(table), pk, epoch, serialize_pk),
        ),
{
}

/// Where the key of a key row is a function of its columns, a row that was inserted is found under
/// its key columns, whole, before it is committed; and a lookup under another key finds what it
/// found before.
pub proof fn lemma_inserted_row_is_found<S, SER, F: Fn(&Row, &OrderedRowSerializer) -> Vec<u8>>(
    table: &mut StateTableExtended<S, SER>,
    value: Row,
    serialize_pk: F,
    result: StorageResult<()>,
    key_of: spec_fn(RowView) -> Seq<u8>,
    pk: &Row,
    epoch: u64,
    before: RowLookup,
    after: RowLookup,
)
    requires
        forall|row: Row, bytes: Vec<u8>| #[trigger]
            call_ensures(serialize_pk, (&row, &old(table).pk_serializer()), bytes) ==> bytes@
                == key_of(row@),
        call_ensures(
            StateTableExtended::<S, SER>::get_row::<F>,
            (&*old(table), pk, epoch, serialize_pk),
            before,
        ),
        call_ensures(
            StateTableExtended::<S, SER>::insert::<F>,
            (table, value, serialize_pk),
            result,
        ),
        call_ensures(
            StateTableExtended::<S, SER>::get_row::<F>,
            (&*final(table), pk, epoch, serialize_pk),
            after,
        ),
    ensures
        result is Ok && pk@ == Seq::new(
            old(table).pk_indices().len(),
            |i: int| value@[old(table).pk_indices()[i] as int],
        ) ==> (after matches RowLookup::Buffered(Some(row)) && row@ == value@),
        key_of(pk@) != key_of(
            Seq::new(
                old(table).pk_indices().len(),
                |i: int| value@[old(table).pk_indices()[i] as int],
            ),
        ) ==> match before {
            RowLookup::Buffered(Some(row)) => after matches RowLookup::Buffered(Some(same)) && same@
                == row@,
            RowLookup::Buffered(None) => after matches RowLookup::Buffered(None),
            RowLookup::Stored { .. } => after == before,
        },
{
    let columns = Seq::new(
        old(table).pk_indices().len(),
        |i: int| value@[old(table).pk_indices()[i] as int],
    );
    assert(old(table).pk_of(value@) =~= columns);
    assert(final(table).pk_serializer() == old(table).pk_serializer());
}

/// Where the key of a key row is a function of its columns, a deletion hides the row: a lookup under
/// its key columns finds it gone, or, where only the buffer had it, turns to storage; and a lookup
/// under another key finds what it found before.
pub proof fn lemma_deleted_row_is_gone<S, SER, F: Fn(&Row, &OrderedRowSerializer) -> Vec<u8>>(
    table: &mut StateTableExtended<S, SER>,
    old_value: Row,
    serialize_pk: F,
    result: StorageResult<()>,
    key_of: spec_fn(RowView) -> Seq<u8>,
    pk: &Row,
    epoch: u64,
    before: RowLookup,
    after: RowLookup,
)
    requires
        forall|row: Row, bytes: Vec<u8>| #[trigger]
            call_ensures(serialize_pk, (&row, &old(table).pk_serializer()), bytes) ==> bytes@
                == key_of(row@),
        call_ensures(
            StateTableExtended::<S, SER>::get_row::<F>,
            (&*old(table), pk, epoch, serialize_pk),
            before,
        ),
        call_ensures(
            StateTableExtended::<S, SER>::delete::<F>,
            (table, old_value, serialize_pk),
            result,
        ),
        call_ensures(
            StateTableExtended::<S, SER>::get_row::<F>,
            (&*final(table), pk, epoch, serialize_pk),
            after,
        ),
    ensures
        pk@ == Seq::new(
            old(table).pk_indices().len(),
            |i: int| old_value@[old(table).pk_indices()[i] as int],
        ) ==> {
            &&& !(after matches RowLookup::Buffered(Some(_)))
            &&& result is Err <==> (before matches RowLookup::Buffered(None))
            &&& before is Stored ==> (after matches RowLookup::Buffered(None))
        },
        key_of(pk@) != key_of(
            Seq::new(
                old(table).pk_indices().len(),
                |i: int| old_value@[old(table).pk_indices()[i] as int],
            ),
        ) ==> match before {
            RowLookup::Buffered(Some(row)) => after matches RowLookup::Buffered(Some(same)) && same@
                == row@,
            RowLookup::Buffered(None) => after matches RowLookup::Buffered(None),
            RowLookup::Stored { .. } => after == before,
        },
{
    let columns = Seq::new(
        old(table).pk_indices().len(),
        |i: int| old_value@[old(table).pk_indices()[i] as int],
    );
    assert(old(table).pk_of(old_value@) =~= columns);
    assert(final(table).pk_serializer() == old(table).pk_serializer());
}

/// Two rows that are inserted one after the other: the second is refused where both have the same
/// key, and where their keys differ it is refused only if it would have been without the first.
pub proof fn lemma_rows_do_not_stand_in_the_way<
    S,
    SER,
    F: Fn(&Row, &OrderedRowSerializer) -> Vec<u8>,
>(
    table: &mut StateTableExtended<S, SER>,
    later: &mut StateTableExtended<S, SER>,
    first: Row,
    second: Row,
    serialize_pk: F,
    first_result: StorageResult<()>,
    second_result: StorageResult<()>,
    key_of: spec_fn(RowView) -> Seq<u8>,
)
    requires
        forall|row: Row, bytes: Vec<u8>| #[trigger]
            call_ensures(serialize_pk, (&row, &old(table).pk_serializer()), bytes) ==> bytes@
                == key_of(row@),
        call_ensures(
            StateTableExtended::<S, SER>::insert::<F>,
            (table, first, serialize_pk),
            first_result,
        ),
        *old(later) == *final(table),
        call_ensures(
            StateTableExtended::<S, SER>::insert::<F>,
            (later, second, serialize_pk),
            second_result,
        ),
    ensures
        ({
            let indices = old(table).pk_indices();
            let first_key = key_of(Seq::new(indices.len(), |i: int| first@[indices[i] as int]));
            let second_key = key_of(Seq::new(indices.len(), |i: int| second@[indices[i] as int]));
            let buffered = old(table).mem_table()@;
            &&& first_key == second_key ==> second_result is Err
            &&& first_key != second_key ==> (second_result is Err <==> buffered.contains_key(
                second_key,
            ) && !(buffered[second_key] is Delete))
            &&& first_key != second_key && first_result is Ok && second_result is Ok ==> {
                &&& final(later).mem_table()@.contains_key(first_key)
                &&& final(later).mem_table()@.contains_key(second_key)
                &&& match final(later).mem_table()@[first_key] {
                    RowOpView::Insert(row) => row == first@,
                    RowOpView::Update(_, row) => row == first@,
                    RowOpView::Delete(_) => false,
                }
                &&& match final(later).mem_table()@[second_key] {
                    RowOpView::Insert(row) => row == second@,
                    RowOpView::Update(_, row) => row == second@,
                    RowOpView::Delete(_) => false,
                }
            }
        }),
{
    let indices = old(table).pk_indices();
    assert(old(table).pk_of(first@) =~= Seq::new(
        indices.len(),
        |i: int| first@[indices[i] as int],
    ));
    assert(old(later).pk_of(second@) =~= Seq::new(
        indices.len(),
        |i: int| second@[indices[i] as int],
    ));
    assert(old(later).pk_serializer() == old(table).pk_serializer());
}

/// A commit hands over what was buffered, one operation for each key, in the order of the keys,
/// under the keys under which they were buffered, as of the epoch that was given; and nothing is
/// buffered any more. The two kinds of commit differ in whether the values are written with their
/// metadata.
pub proof fn lemma_commit_hands_over_the_buffer<S, SER>(
    table: &mut StateTableExtended<S, SER>,
    other: &mut StateTableExtended<S, SER>,
    epoch: u64,
    plain: WriteBatch,
    with_meta: WriteBatch,
    key: Seq<u8>,
    op: RowOpView,
)
    requires
        call_ensures(StateTableExtended::<S, SER>::commit, (table, epoch), plain),
        call_ensures(
            StateTableExtended::<S, SER>::commit_with_value_meta,
            (other, epoch),
            with_meta,
        ),
    ensures
        plain.epoch == epoch && with_meta.epoch == epoch,
        !plain.with_value_meta && with_meta.with_value_meta,
        final(table).mem_table()@ == Map::<Seq<u8>, RowOpView>::empty(),
        final(other).mem_table()@ == Map::<Seq<u8>, RowOpView>::empty(),
        forall|i: int, j: int|
            0 <= i < j < plain.rows@.len() ==> key_lt(
                #[trigger] plain.rows@[i].0@,
                #[trigger] plain.rows@[j].0@,
            ),
        forall|i: int, j: int|
            0 <= i < j < with_meta.rows@.len() ==> key_lt(
                #[trigger] with_meta.rows@[i].0@,
                #[trigger] with_meta.rows@[j].0@,
            ),
        old(table).mem_table()@.contains_pair(key, op) <==> exists|i: int|
            0 <= i < plain.rows@.len() && #[trigger] plain.rows@[i].0@ == key
                && plain.rows@[i].1.deep_view() == op,
        old(other).mem_table()@.contains_pair(key, op) <==> exists|i: int|
            0 <= i < with_meta.rows@.len() && #[trigger] with_meta.rows@[i].0@ == key
                && with_meta.rows@[i].1.deep_view() == op,
        final(table).keyspace() == old(table).keyspace(),
        final(table).pk_serializer() == old(table).pk_serializer(),
        final(table).pk_indices() == old(table).pk_indices(),
        final(table).column_descs() == old(table).column_descs(),
{
    lemma_listed_operations(plain.rows@, key, op);
    lemma_listed_operations(with_meta.rows@, key, op);
}

/// The operations that a scan goes by are those that are buffered under the keys of its range, in
/// the order of their keys.
proof fn lemma_scanned_operations<S, SER>(
    table: StateTableExtended<S, SER>,
    iter: StateTableRowIter<'_, S>,
    storage: (Bound<Seq<u8>>, Bound<Seq<u8>>),
    keys: (Bound<Seq<u8>>, Bound<Seq<u8>>),
    epoch: u64,
    key: Seq<u8>,
    op: RowOpView,
)
    requires
        table.is_scan(iter, storage, keys, epoch),
    ensures
        forall|i: int, j: int|
            0 <= i < j < iter.rest().len() ==> key_lt(
                #[trigger] iter.rest()[i].0,
                #[trigger] iter.rest()[j].0,
            ),
        iter.rest().contains((key, op)) <==> table.mem_table()@.contains_pair(key, op) && admits(
            keys,
            key,
        ),
        (iter.cell_based_bounds.0@, iter.cell_based_bounds.1@) == storage,
        *iter.keyspace == table.keyspace(),
        iter.epoch == epoch,
        iter.table_descs == table.column_mapping(),
{
    let rest = iter.rest();
    lemma_sorted_distinct(rest);
    lemma_to_map(rest);
    if rest.contains((key, op)) {
        let i = choose|i: int| 0 <= i < rest.len() && rest[i] == (key, op);
        assert(rest[i].0 == key);
    }
    if table.mem_table()@.contains_pair(key, op) && admits(keys, key) {
        assert(to_map(rest).contains_key(key));
        assert(rest[place_of(rest, key)] == (key, op));
    }
}

/// A scan of a range of keys asks storage for the same range under the table's prefix, with bounds
/// of the same kind, as of the epoch that was given: a key of the table lies in the range that was
/// asked for if and only if its key in the store lies in the range that storage is asked for. It
/// goes by the operations that are buffered in the range, and by no others.
pub proof fn lemma_scan_asks_for_the_range<'a, S, SER>(
    table: &'a StateTableExtended<S, SER>,
    key_bounds: (Bound<Vec<u8>>, Bound<Vec<u8>>),
    epoch: u64,
    iter: StateTableRowIter<'a, S>,
    key: Seq<u8>,
    op: RowOpView,
)
    requires
        call_ensures(
            StateTableExtended::<S, SER>::iter_with_key_bounds,
            (table, key_bounds, epoch),
            iter,
        ),
    ensures
        *iter.keyspace == table.keyspace(),
        iter.epoch == epoch,
        iter.table_descs == table.column_mapping(),
        match (key_bounds.0, iter.cell_based_bounds.0) {
            (Bound::Included(start), Bound::Included(stored)) => stored@
                == table.keyspace().prefix@ + start@,
            (Bound::Excluded(start), Bound::Excluded(stored)) => stored@
                == table.keyspace().prefix@ + start@,
            (Bound::Unbounded, Bound::Unbounded) => true,
            _ => false,
        },
        match (key_bounds.1, iter.cell_based_bounds.1) {
            (Bound::Included(end), Bound::Included(stored)) => stored@ == table.keyspace().prefix@
                + end@,
            (Bound::Excluded(end), Bound::Excluded(stored)) => stored@ == table.keyspace().prefix@
                + end@,
            (Bound::Unbounded, Bound::Unbounded) => true,
            _ => false,
        },
        admits(
            (iter.cell_based_bounds.0@, iter.cell_based_bounds.1@),
            table.keyspace().prefix@ + key,
        ) <==> admits((key_bounds.0@, key_bounds.1@), key),
        forall|i: int, j: int|
            0 <= i < j < iter.rest().len() ==> key_lt(
                #[trigger] iter.rest()[i].0,
                #[trigger] iter.rest()[j].0,
            ),
        iter.rest().contains((key, op)) <==> table.mem_table()@.contains_pair(key, op) && admits(
            (key_bounds.0@, key_bounds.1@),
            key,
        ),
{
    lemma_prefixed_bounds(table.keyspace().prefix@, (key_bounds.0@, key_bounds.1@), key);
    lemma_scanned_operations(
        *table,
        iter,
        (iter.cell_based_bounds.0@, iter.cell_based_bounds.1@),
        (key_bounds.0@, key_bounds.1@),
        epoch,
        key,
        op,
    );
}

/// A bound on key rows becomes a bound of the same kind on the key that the encoding function
/// returned for the key row.
pub proof fn lemma_bound_is_encoded<F: Fn(&Row, &OrderedRowSerializer) -> Vec<u8>>(
    serialize_pk: F,
    bound: Bound<RowView>,
    order_types: Seq<OrderType>,
    key_bound: Bound<Seq<u8>>,
)
    ensures
        encodes_bound(serialize_pk, bound, order_types, key_bound) <==> match (bound, key_bound) {
            (Bound::Included(pk), Bound::Included(key)) => encodes(
                serialize_pk,
                pk,
                order_types,
                key,
            ),
            (Bound::Excluded(pk), Bound::Excluded(key)) => encodes(
                serialize_pk,
                pk,
                order_types,
                key,
            ),
            (Bound::Unbounded, Bound::Unbounded) => true,
            _ => false,
        },
        encodable_bound(serialize_pk, bound, order_types) <==> match bound {
            Bound::Included(pk) => encodable(serialize_pk, pk, order_types),
            Bound::Excluded(pk) => encodable(serialize_pk, pk, order_types),
            Bound::Unbounded => true,
        },
{
}

/// A scan of a range of key rows, where the key of a key row is a function of its columns: storage
/// is asked for the keys of the bounds under the table's prefix, with bounds of the same kind, and
/// the buffer is scanned over the same range. Both forms of the scan give the same, and the checked
/// one gives none exactly where the bounds are not in order.
pub proof fn lemma_scan_asks_for_the_range_of_key_rows<
    'a,
    S,
    SER,
    F: Fn(&Row, &OrderedRowSerializer) -> Vec<u8>,
>(
    table: &'a StateTableExtended<S, SER>,
    pk_bounds: &(Bound<Row>, Bound<Row>),
    epoch: u64,
    serialize_pk: F,
    key_of: spec_fn(RowView) -> Seq<u8>,
    bounds: (Bound<Seq<u8>>, Bound<Seq<u8>>),
    iter: StateTableRowIter<'a, S>,
    checked: Option<StateTableRowIter<'a, S>>,
    key: Seq<u8>,
    op: RowOpView,
)
    requires
        forall|row: Row, serializer: OrderedRowSerializer, bytes: Vec<u8>|
            serializer.order_types@ == table.order_types() && #[trigger] call_ensures(
                serialize_pk,
                (&row, &serializer),
                bytes,
            ) ==> bytes@ == key_of(row@),
        bounds.0 == match pk_bounds.0 {
            Bound::Included(pk) => Bound::Included(key_of(pk@)),
            Bound::Excluded(pk) => Bound::Excluded(key_of(pk@)),
            Bound::Unbounded => Bound::Unbounded,
        },
        bounds.1 == match pk_bounds.1 {
            Bound::Included(pk) => Bound::Included(key_of(pk@)),
            Bound::Excluded(pk) => Bound::Excluded(key_of(pk@)),
            Bound::Unbounded => Bound::Unbounded,
        },
        call_ensures(
            StateTableExtended::<S, SER>::iter_with_pk_bounds::<F>,
            (table, pk_bounds, epoch, serialize_pk),
            iter,
        ),
        call_ensures(
            StateTableExtended::<S, SER>::checked_iter_with_pk_bounds::<F>,
            (table, pk_bounds, epoch, serialize_pk),
            checked,
        ),
    ensures
        *iter.keyspace == table.keyspace(),
        iter.epoch == epoch,
        iter.table_descs == table.column_mapping(),
        match (bounds.0, iter.cell_based_bounds.0) {
            (Bound::Included(start), Bound::Included(stored)) => stored@
                == table.keyspace().prefix@ + start,
            (Bound::Excluded(start), Bound::Excluded(stored)) => stored@
                == table.keyspace().prefix@ + start,
            (Bound::Unbounded, Bound::Unbounded) => true,
            _ => false,
        },
        match (bounds.1, iter.cell_based_bounds.1) {
            (Bound::Included(end), Bound::Included(stored)) => stored@ == table.keyspace().prefix@
                + end,
            (Bound::Excluded(end), Bound::Excluded(stored)) => stored@ == table.keyspace().prefix@
                + end,
            (Bound::Unbounded, Bound::Unbounded) => true,
            _ => false,
        },
        admits(
            (iter.cell_based_bounds.0@, iter.cell_based_bounds.1@),
            table.keyspace().prefix@ + key,
        ) <==> admits(bounds, key),
        forall|i: int, j: int|
            0 <= i < j < iter.rest().len() ==> key_lt(
                #[trigger] iter.rest()[i].0,
                #[trigger] iter.rest()[j].0,
            ),
        iter.rest().contains((key, op)) <==> table.mem_table()@.contains_pair(key, op) && admits(
            bounds,
            key,
        ),
        checked is Some <==> in_order(bounds),
        checked matches Some(same) ==> {
            &&& *same.keyspace == *iter.keyspace
            &&& same.epoch == epoch
            &&& same.table_descs == iter.table_descs
            &&& same.cell_based_bounds.0@ == iter.cell_based_bounds.0@
            &&& same.cell_based_bounds.1@ == iter.cell_based_bounds.1@
            &&& same.rest().contains((key, op)) <==> iter.rest().contains((key, op))
            &&& forall|i: int, j: int|
                0 <= i < j < same.rest().len() ==> key_lt(
                    #[trigger] same.rest()[i].0,
                    #[trigger] same.rest()[j].0,
                )
        },
{
    let order_types = table.order_types();
    assert forall|bound: Bound<Row>, start: Bound<Seq<u8>>| #[trigger]
        encodes_bound(serialize_pk, bound@, order_types, start) implies start == (match bound {
        Bound::Included(pk) => Bound::Included(key_of(pk@)),
        Bound::Excluded(pk) => Bound::Excluded(key_of(pk@)),
        Bound::Unbounded => Bound::Unbounded,
    }) by {}
    let prefix = table.keyspace().prefix@;
    let storage = (iter.cell_based_bounds.0@, iter.cell_based_bounds.1@);
    assert(table.is_scan(iter, storage, bounds, epoch));
    lemma_prefixed_bounds(prefix, bounds, key);
    lemma_scanned_operations(*table, iter, storage, bounds, epoch, key, op);
    if checked is Some {
        let same = checked->Some_0;
        assert(table.is_scan(same, storage, bounds, epoch));
        lemma_scanned_operations(*table, same, storage, bounds, epoch, key, op);
    }
}

/// A scan of a key prefix asks storage for the keys that are the table's prefix, then the key
/// prefix that the encoding function returned, then anything, and for no others; and it goes by the
/// operations that are buffered under keys that start with the key prefix. Without a key prefix
/// these are the keys of the table, and all that is buffered.
pub proof fn lemma_scan_asks_for_the_prefix<
    'a,
    S,
    SER,
    F: Fn(&Row, &OrderedRowSerializer) -> Vec<u8>,
>(
    table: &'a StateTableExtended<S, SER>,
    pk_prefix: Option<&Row>,
    prefix_serializer: OrderedRowSerializer,
    epoch: u64,
    serialize_pk: F,
    beginning: Seq<u8>,
    iter: StateTableRowIter<'a, S>,
    stored_key: Seq<u8>,
    key: Seq<u8>,
    op: RowOpView,
)
    requires
        match pk_prefix {
            Some(pk_prefix) => forall|bytes: Vec<u8>| #[trigger]
                call_ensures(serialize_pk, (pk_prefix, &prefix_serializer), bytes) ==> bytes@
                    == beginning,
            None => beginning.len() == 0,
        },
        call_ensures(
            StateTableExtended::<S, SER>::iter_with_pk_prefix::<F>,
            (table, pk_prefix, prefix_serializer, epoch, serialize_pk),
            iter,
        ),
    ensures
        *iter.keyspace == table.keyspace(),
        iter.epoch == epoch,
        iter.table_descs == table.column_mapping(),
        admits((iter.cell_based_bounds.0@, iter.cell_based_bounds.1@), stored_key) <==> exists|
            rest: Seq<u8>,
        | stored_key == #[trigger] (table.keyspace().prefix@ + beginning + rest),
        forall|i: int, j: int|
            0 <= i < j < iter.rest().len() ==> key_lt(
                #[trigger] iter.rest()[i].0,
                #[trigger] iter.rest()[j].0,
            ),
        iter.rest().contains((key, op)) <==> table.mem_table()@.contains_pair(key, op) && exists|
            rest: Seq<u8>,
        | key == #[trigger] (beginning + rest),
{
    let prefix = table.keyspace().prefix@;
    let storage = (iter.cell_based_bounds.0@, iter.cell_based_bounds.1@);
    let keys = match pk_prefix {
        Some(_) => prefix_bounds(beginning),
        None => (Bound::Unbounded, Bound::Unbounded),
    };
    if pk_prefix is None {
        assert(prefix + beginning =~= prefix);
        assert(beginning + key =~= key);
    }
    assert(storage == prefix_bounds(prefix + beginning));
    lemma_prefix_bounds(prefix + beginning, stored_key);
    lemma_prefix_is_the_beginning(prefix + beginning, stored_key);
    lemma_prefix_bounds(beginning, key);
    lemma_prefix_is_the_beginning(beginning, key);
    lemma_scanned_operations(*table, iter, storage, keys, epoch, key, op);
}

/// A scan of all rows asks storage for the keys that start with the table's prefix, and for no
/// others, and goes by all that is buffered.
pub proof fn lemma_scan_asks_for_the_table<'a, S, SER>(
    table: &'a StateTableExtended<S, SER>,
    epoch: u64,
    iter: StateTableRowIter<'a, S>,
    stored_key: Seq<u8>,
    key: Seq<u8>,
    op: RowOpView,
)
    requires
        call_ensures(StateTableExtended::<S, SER>::iter, (table, epoch), iter),
    ensures
        *iter.keyspace == table.keyspace(),
        iter.epoch == epoch,
        iter.table_descs == table.column_mapping(),
        admits((iter.cell_based_bounds.0@, iter.cell_based_bounds.1@), stored_key) <==> exists|
            rest: Seq<u8>,
        | stored_key == #[trigger] (table.keyspace().prefix@ + rest),
        forall|i: int, j: int|
            0 <= i < j < iter.rest().len() ==> key_lt(
                #[trigger] iter.rest()[i].0,
                #[trigger] iter.rest()[j].0,
            ),
        iter.rest().contains((key, op)) <==> table.mem_table()@.contains_pair(key, op),
{
    let prefix = table.keyspace().prefix@;
    lemma_prefix_bounds(prefix, stored_key);
    lemma_prefix_is_the_beginning(prefix, stored_key);
    lemma_scanned_operations(
        *table,
        iter,
        prefix_bounds(prefix),
        (Bound::Unbounded, Bound::Unbounded),
        epoch,
        key,
        op,
    );
}

/// A scan that goes by the operations on some keys, over a store that delivers its rows under these
/// keys in their order, yields in that order the rows that stand under them: what is buffered where
/// something is, and what is stored where nothing is.
proof fn lemma_scan_of_some_keys<S>(
    iter: StateTableRowIter<'_, S>,
    prefix: Seq<u8>,
    buffered: Map<Seq<u8>, RowOpView>,
    asked: spec_fn(Seq<u8>) -> bool,
    store: Map<Seq<u8>, RowView>,
    items: Vec<StorageResult<(Vec<u8>, Row)>>,
    stream: Vec<StorageResult<Row>>,
) -> (keys: Seq<Seq<u8>>)
    requires
        call_ensures(StateTableRowIter::<S>::into_stream, (iter, items), stream),
        forall|i: int, j: int|
            0 <= i < j < iter.rest().len() ==> key_lt(
                #[trigger] iter.rest()[i].0,
                #[trigger] iter.rest()[j].0,
            ),
        forall|key: Seq<u8>, op: RowOpView| #[trigger]
            iter.rest().contains((key, op)) <==> buffered.contains_pair(key, op) && asked(key),
        forall|i: int| 0 <= i < items@.len() ==> #[trigger] items@[i] is Ok,
        forall|i: int, j: int|
            0 <= i < j < items@.len() ==> key_lt(
                (#[trigger] items@[i])->Ok_0.0@,
                (#[trigger] items@[j])->Ok_0.0@,
            ),
        forall|i: int|
            0 <= i < items@.len() ==> asked((#[trigger] items@[i])->Ok_0.0@)
                && store.contains_pair(prefix + items@[i]->Ok_0.0@, items@[i]->Ok_0.1@),
        forall|key: Seq<u8>| #[trigger]
            store.contains_key(prefix + key) && asked(key) ==> exists|i: int|
                0 <= i < items@.len() && (#[trigger] items@[i])->Ok_0.0@ == key,
    ensures
        stream@.len() == keys.len(),
        forall|i: int, j: int|
            0 <= i < j < keys.len() ==> key_lt(#[trigger] keys[i], #[trigger] keys[j]),
        forall|i: int|
            #![trigger keys[i]]
            #![trigger stream@[i]]
            0 <= i < keys.len() ==> asked(keys[i]) && stream@[i] is Ok && {
                let row = stream@[i]->Ok_0@;
                if buffered.contains_key(keys[i]) {
                    match buffered[keys[i]] {
                        RowOpView::Insert(new) => new == row,
                        RowOpView::Update(_, new) => new == row,
                        RowOpView::Delete(_) => false,
                    }
                } else {
                    store.contains_pair(prefix + keys[i], row)
                }
            },
        forall|key: Seq<u8>|
            asked(key) && (if buffered.contains_key(key) {
                !(buffered[key] is Delete)
            } else {
                store.contains_key(prefix + key)
            }) ==> #[trigger] keys.contains(key),
{
    let n = items@.len() as int;
    let ops = iter.rest();
    let keys = lemma_scan_sees_the_buffer(iter, items, stream, n);
    assert forall|i: int|
        #![trigger keys[i]]
        #![trigger stream@[i]]
        0 <= i < keys.len() implies asked(keys[i]) && stream@[i] is Ok && {
        let row = stream@[i]->Ok_0@;
        if buffered.contains_key(keys[i]) {
            match buffered[keys[i]] {
                RowOpView::Insert(new) => new == row,
                RowOpView::Update(_, new) => new == row,
                RowOpView::Delete(_) => false,
            }
        } else {
            store.contains_pair(prefix + keys[i], row)
        }
    } by {
        let key = keys[i];
        let row = stream@[i]->Ok_0@;
        if exists|op: RowOpView| #[trigger] ops.contains((key, op)) {
            if !ops.contains((key, RowOpView::Insert(row))) {
                let stored = choose|stored: RowView| #[trigger]
                    ops.contains((key, RowOpView::Update(stored, row)));
                assert(ops.contains((key, RowOpView::Update(stored, row))));
            }
        } else {
            let j = choose|j: int|
                0 <= j < n && (#[trigger] items@[j])->Ok_0.0@ == key && items@[j]->Ok_0.1@ == row;
            assert(asked(items@[j]->Ok_0.0@));
            if buffered.contains_key(key) {
                assert(ops.contains((key, buffered[key])));
            }
        }
    }
    assert forall|key: Seq<u8>|
        asked(key) && (if buffered.contains_key(key) {
            !(buffered[key] is Delete)
        } else {
            store.contains_key(prefix + key)
        }) implies #[trigger] keys.contains(key) by {
        if buffered.contains_key(key) {
            assert(ops.contains((key, buffered[key])));
            let j = choose|j: int| 0 <= j < ops.len() && ops[j] == (key, buffered[key]);
            assert(!(ops[j].1 is Delete));
        } else {
            let j = choose|j: int| 0 <= j < n && (#[trigger] items@[j])->Ok_0.0@ == key;
            assert forall|k: int| 0 <= k < ops.len() implies #[trigger] ops[k].0
                != items@[j]->Ok_0.0@ by {
                if ops[k].0 == key {
                    assert(ops.contains((key, ops[k].1)));
                }
            }
        }
    }
    keys
}

/// A scan of a range of keys reads the table as it stands, uncommitted writes and all. Where
/// storage delivers the rows of the store within the range that the scan asks it for, in the order
/// of their keys, the scan yields, in that order, exactly the rows under the keys of the range that
/// was asked for: what is buffered where something is, and what is stored where nothing is.
pub proof fn lemma_range_scan_reads_the_table<'a, S, SER>(
    table: &'a StateTableExtended<S, SER>,
    key_bounds: (Bound<Vec<u8>>, Bound<Vec<u8>>),
    epoch: u64,
    iter: StateTableRowIter<'a, S>,
    store: Map<Seq<u8>, RowView>,
    items: Vec<StorageResult<(Vec<u8>, Row)>>,
    stream: Vec<StorageResult<Row>>,
) -> (keys: Seq<Seq<u8>>)
    requires
        call_ensures(
            StateTableExtended::<S, SER>::iter_with_key_bounds,
            (table, key_bounds, epoch),
            iter,
        ),
        call_ensures(StateTableRowIter::<S>::into_stream, (iter, items), stream),
        forall|i: int| 0 <= i < items@.len() ==> #[trigger] items@[i] is Ok,
        forall|i: int, j: int|
            0 <= i < j < items@.len() ==> key_lt(
                (#[trigger] items@[i])->Ok_0.0@,
                (#[trigger] items@[j])->Ok_0.0@,
            ),
        forall|i: int|
            0 <= i < items@.len() ==> {
                &&& store.contains_pair(
                    table.keyspace().prefix@ + (#[trigger] items@[i])->Ok_0.0@,
                    items@[i]->Ok_0.1@,
                )
                &&& admits(
                    (iter.cell_based_bounds.0@, iter.cell_based_bounds.1@),
                    table.keyspace().prefix@ + items@[i]->Ok_0.0@,
                )
            },
        forall|key: Seq<u8>| #[trigger]
            store.contains_key(table.keyspace().prefix@ + key) && admits(
                (iter.cell_based_bounds.0@, iter.cell_based_bounds.1@),
                table.keyspace().prefix@ + key,
            ) ==> exists|i: int|
                0 <= i < items@.len() && (#[trigger] items@[i])->Ok_0.0@ == key,
    ensures
        stream@.len() == keys.len(),
        forall|i: int, j: int|
            0 <= i < j < keys.len() ==> key_lt(#[trigger] keys[i], #[trigger] keys[j]),
        forall|i: int|
            #![trigger keys[i]]
            #![trigger stream@[i]]
            0 <= i < keys.len() ==> admits((key_bounds.0@, key_bounds.1@), keys[i])
                && stream@[i] is Ok && {
                let row = stream@[i]->Ok_0@;
                if table.mem_table()@.contains_key(keys[i]) {
                    match table.mem_table()@[keys[i]] {
                        RowOpView::Insert(new) => new == row,
                        RowOpView::Update(_, new) => new == row,
                        RowOpView::Delete(_) => false,
                    }
                } else {
                    store.contains_pair(table.keyspace().prefix@ + keys[i], row)
                }
            },
        forall|key: Seq<u8>|
            admits((key_bounds.0@, key_bounds.1@), key) && (if table.mem_table()@.contains_key(
                key,
            ) {
                !(table.mem_table()@[key] is Delete)
            } else {
                store.contains_key(table.keyspace().prefix@ + key)
            }) ==> #[trigger] keys.contains(key),
{
    let bounds = (key_bounds.0@, key_bounds.1@);
    let prefix = table.keyspace().prefix@;
    let buffered = table.mem_table()@;
    let asked = |key: Seq<u8>| admits(bounds, key);
    assert forall|key: Seq<u8>, op: RowOpView| #[trigger]
        iter.rest().contains((key, op)) <==> buffered.contains_pair(key, op) && asked(key) by {
        lemma_scan_asks_for_the_range(table, key_bounds, epoch, iter, key, op);
    }
    assert forall|key: Seq<u8>|
        admits(
            (iter.cell_based_bounds.0@, iter.cell_based_bounds.1@),
            #[trigger] (prefix + key),
        ) <==> asked(key) by {
        lemma_scan_asks_for_the_range(
            table,
            key_bounds,
            epoch,
            iter,
            key,
            RowOpView::Insert(Seq::empty()),
        );
    }
    lemma_scan_asks_for_the_range(
        table,
        key_bounds,
        epoch,
        iter,
        prefix,
        RowOpView::Insert(Seq::empty()),
    );
    let keys = lemma_scan_of_some_keys(iter, prefix, buffered, asked, store, items, stream);
    assert forall|i: int| #![trigger keys[i]] 0 <= i < keys.len() implies admits(
        bounds,
        keys[i],
    ) by {
        assert(asked(keys[i]));
    }
    assert forall|key: Seq<u8>|
        admits(bounds, key) && (if buffered.contains_key(key) {
            !(buffered[key] is Delete)
        } else {
            store.contains_key(prefix + key)
        }) implies #[trigger] keys.contains(key) by {
        assert(asked(key));
    }
    keys
}

/// A scan of a key prefix reads the table as it stands, uncommitted writes and all. Where storage
/// delivers the rows of the store within the range that the scan asks it for, in the order of their
/// keys, the scan yields, in that order, exactly the rows under the keys that start with what the
/// encoding function returned for the prefix: what is buffered where something is, and what is
/// stored where nothing is. Without a prefix it yields all rows.
pub proof fn lemma_prefix_scan_reads_the_table<
    'a,
    S,
    SER,
    F: Fn(&Row, &OrderedRowSerializer) -> Vec<u8>,
>(
    table: &'a StateTableExtended<S, SER>,
    pk_prefix: Option<&Row>,
    prefix_serializer: OrderedRowSerializer,
    epoch: u64,
    serialize_pk: F,
    beginning: Seq<u8>,
    iter: StateTableRowIter<'a, S>,
    store: Map<Seq<u8>, RowView>,
    items: Vec<StorageResult<(Vec<u8>, Row)>>,
    stream: Vec<StorageResult<Row>>,
) -> (keys: Seq<Seq<u8>>)
    requires
        match pk_prefix {
            Some(pk_prefix) => forall|bytes: Vec<u8>| #[trigger]
                call_ensures(serialize_pk, (pk_prefix, &prefix_serializer), bytes) ==> bytes@
                    == beginning,
            None => beginning.len() == 0,
        },
        call_ensures(
            StateTableExtended::<S, SER>::iter_with_pk_prefix::<F>,
            (table, pk_prefix, prefix_serializer, epoch, serialize_pk),
            iter,
        ),
        call_ensures(StateTableRowIter::<S>::into_stream, (iter, items), stream),
        forall|i: int| 0 <= i < items@.len() ==> #[trigger] items@[i] is Ok,
        forall|i: int, j: int|
            0 <= i < j < items@.len() ==> key_lt(
                (#[trigger] items@[i])->Ok_0.0@,
                (#[trigger] items@[j])->Ok_0.0@,
            ),
        forall|i: int|
            0 <= i < items@.len() ==> {
                &&& store.contains_pair(
                    table.keyspace().prefix@ + (#[trigger] items@[i])->Ok_0.0@,
                    items@[i]->Ok_0.1@,
                )
                &&& admits(
                    (iter.cell_based_bounds.0@, iter.cell_based_bounds.1@),
                    table.keyspace().prefix@ + items@[i]->Ok_0.0@,
                )
            },
        forall|key: Seq<u8>| #[trigger]
            store.contains_key(table.keyspace().prefix@ + key) && admits(
                (iter.cell_based_bounds.0@, iter.cell_based_bounds.1@),
                table.keyspace().prefix@ + key,
            ) ==> exists|i: int|
                0 <= i < items@.len() && (#[trigger] items@[i])->Ok_0.0@ == key,
    ensures
        stream@.len() == keys.len(),
        forall|i: int, j: int|
            0 <= i < j < keys.len() ==> key_lt(#[trigger] keys[i], #[trigger] keys[j]),
        forall|i: int|
            #![trigger keys[i]]
            #![trigger stream@[i]]
            0 <= i < keys.len() ==> keys[i].len() >= beginning.len() && keys[i].take(
                beginning.len() as int,
            ) == beginning && stream@[i] is Ok && {
                let row = stream@[i]->Ok_0@;
                if table.mem_table()@.contains_key(keys[i]) {
                    match table.mem_table()@[keys[i]] {
                        RowOpView::Insert(new) => new == row,
                        RowOpView::Update(_, new) => new == row,
                        RowOpView::Delete(_) => false,
                    }
                } else {
                    store.contains_pair(table.keyspace().prefix@ + keys[i], row)
                }
            },
        forall|key: Seq<u8>|
            key.len() >= beginning.len() && key.take(beginning.len() as int) == beginning && (
            if table.mem_table()@.contains_key(key) {
                !(table.mem_table()@[key] is Delete)
            } else {
                store.contains_key(table.keyspace().prefix@ + key)
            }) ==> #[trigger] keys.contains(key),
{
    let prefix = table.keyspace().prefix@;
    let buffered = table.mem_table()@;
    let size = beginning.len() as int;
    let asked = |key: Seq<u8>| key.len() >= size && key.take(size) == beginning;
    assert forall|key: Seq<u8>| #[trigger] asked(key) <==> exists|rest: Seq<u8>|
        key == #[trigger] (beginning + rest) by {
        if asked(key) {
            assert(key =~= beginning + key.skip(size));
        }
        if exists|rest: Seq<u8>| key == #[trigger] (beginning + rest) {
            assert(key.take(size) =~= beginning);
        }
    }
    assert forall|key: Seq<u8>| #[trigger] asked(key) <==> exists|rest: Seq<u8>|
        prefix + key == #[trigger] (prefix + beginning + rest) by {
        if asked(key) {
            assert(prefix + key =~= prefix + beginning + key.skip(size));
        }
        if exists|rest: Seq<u8>| prefix + key == #[trigger] (prefix + beginning + rest) {
            let rest = choose|rest: Seq<u8>|
                prefix + key == #[trigger] (prefix + beginning + rest);
            assert(key =~= (prefix + key).skip(prefix.len() as int));
            assert(key =~= beginning + rest);
        }
    }
    assert forall|key: Seq<u8>, op: RowOpView| #[trigger]
        iter.rest().contains((key, op)) <==> buffered.contains_pair(key, op) && asked(key) by {
        lemma_scan_asks_for_the_prefix(
            table,
            pk_prefix,
            prefix_serializer,
            epoch,
            serialize_pk,
            beginning,
            iter,
            prefix + key,
            key,
            op,
        );
    }
    assert forall|key: Seq<u8>|
        admits(
            (iter.cell_based_bounds.0@, iter.cell_based_bounds.1@),
            #[trigger] (prefix + key),
        ) <==> asked(key) by {
        lemma_scan_asks_for_the_prefix(
            table,
            pk_prefix,
            prefix_serializer,
            epoch,
            serialize_pk,
            beginning,
            iter,
            prefix + key,
            key,
            RowOpView::Insert(Seq::empty()),
        );
    }
    lemma_scan_asks_for_the_prefix(
        table,
        pk_prefix,
        prefix_serializer,
        epoch,
        serialize_pk,
        beginning,
        iter,
        prefix,
        prefix,
        RowOpView::Insert(Seq::empty()),
    );
    let keys = lemma_scan_of_some_keys(iter, prefix, buffered, asked, store, items, stream);
    assert forall|i: int| #![trigger keys[i]] 0 <= i < keys.len() implies keys[i].len() >= size
        && keys[i].take(size) == beginning by {
        assert(asked(keys[i]));
    }
    assert forall|key: Seq<u8>|
        key.len() >= size && key.take(size) == beginning && (if buffered.contains_key(key) {
            !(buffered[key] is Delete)
        } else {
            store.contains_key(prefix + key)
        }) implies #[trigger] keys.contains(key) by {
        assert(asked(key));
    }
    keys
}

/// A new table has nothing buffered, and has the keyspace, the columns, the directions and the key
/// columns that it was made with.
pub proof fn lemma_new_table_is_set_up<S, SER>(
    keyspace: Keyspace<S>,
    column_descs: Vec<ColumnDesc>,
    order_types: Vec<OrderType>,
    dist_key_indices: Option<Vec<usize>>,
    pk_indices: Vec<usize>,
    cell_based_row_serializer: SER,
    table: StateTableExtended<S, SER>,
)
    requires
        call_ensures(
            StateTableExtended::<S, SER>::new_extended,
            (
                keyspace,
                column_descs,
                order_types,
                dist_key_indices,
                pk_indices,
                cell_based_row_serializer,
            ),
            table,
        ),
    ensures
        table.mem_table()@ == Map::<Seq<u8>, RowOpView>::empty(),
        table.keyspace() == keyspace,
        table.column_descs() == column_descs@,
        table.column_mapping().column_descs@ == column_descs@,
        table.pk_serializer().order_types@ == order_types@,
        table.pk_indices() == pk_indices@,
        table.cell_based_row_serializer() == cell_based_row_serializer,
        match dist_key_indices {
            Some(indices) => table.dist_key_indices() == Some(indices@),
            None => table.dist_key_indices() is None,
        },
{
    table.lemma_wf();
    if dist_key_indices is Some {
        assert(dist_key_indices->Some_0.deep_view() =~= dist_key_indices->Some_0@);
    }
}

/// A scan of all rows reads the table as it stands, uncommitted writes and all. Where storage
/// delivers the rows of the store within the range that the scan asks it for, in the order of their
/// keys, the scan yields, in that order, exactly the rows of the table: what is buffered where
/// something is, and what is stored where nothing is.
pub proof fn lemma_full_scan_reads_the_table<'a, S, SER>(
    table: &'a StateTableExtended<S, SER>,
    epoch: u64,
    iter: StateTableRowIter<'a, S>,
    store: Map<Seq<u8>, RowView>,
    items: Vec<StorageResult<(Vec<u8>, Row)>>,
    stream: Vec<StorageResult<Row>>,
) -> (keys: Seq<Seq<u8>>)
    requires
        call_ensures(StateTableExtended::<S, SER>::iter, (table, epoch), iter),
        call_ensures(StateTableRowIter::<S>::into_stream, (iter, items), stream),
        forall|i: int| 0 <= i < items@.len() ==> #[trigger] items@[i] is Ok,
        forall|i: int, j: int|
            0 <= i < j < items@.len() ==> key_lt(
                (#[trigger] items@[i])->Ok_0.0@,
                (#[trigger] items@[j])->Ok_0.0@,
            ),
        forall|i: int|
            0 <= i < items@.len() ==> {
                &&& store.contains_pair(
                    table.keyspace().prefix@ + (#[trigger] items@[i])->Ok_0.0@,
                    items@[i]->Ok_0.1@,
                )
                &&& admits(
                    (iter.cell_based_bounds.0@, iter.cell_based_bounds.1@),
                    table.keyspace().prefix@ + items@[i]->Ok_0.0@,
                )
            },
        forall|key: Seq<u8>| #[trigger]
            store.contains_key(table.keyspace().prefix@ + key) && admits(
                (iter.cell_based_bounds.0@, iter.cell_based_bounds.1@),
                table.keyspace().prefix@ + key,
            ) ==> exists|i: int|
                0 <= i < items@.len() && (#[trigger] items@[i])->Ok_0.0@ == key,
    ensures
        stream@.len() == keys.len(),
        forall|i: int, j: int|
            0 <= i < j < keys.len() ==> key_lt(#[trigger] keys[i], #[trigger] keys[j]),
        forall|i: int|
            #![trigger keys[i]]
            #![trigger stream@[i]]
            0 <= i < keys.len() ==> stream@[i] is Ok && {
                let row = stream@[i]->Ok_0@;
                if table.mem_table()@.contains_key(keys[i]) {
                    match table.mem_table()@[keys[i]] {
                        RowOpView::Insert(new) => new == row,
                        RowOpView::Update(_, new) => new == row,
                        RowOpView::Delete(_) => false,
                    }
                } else {
                    store.contains_pair(table.keyspace().prefix@ + keys[i], row)
                }
            },
        forall|key: Seq<u8>|
            (if table.mem_table()@.contains_key(key) {
                !(table.mem_table()@[key] is Delete)
            } else {
                store.contains_key(table.keyspace().prefix@ + key)
            }) ==> #[trigger] keys.contains(key),
{
    let prefix = table.keyspace().prefix@;
    let buffered = table.mem_table()@;
    let asked = |key: Seq<u8>| true;
    assert forall|key: Seq<u8>, op: RowOpView| #[trigger]
        iter.rest().contains((key, op)) <==> buffered.contains_pair(key, op) && asked(key) by {
        lemma_scan_asks_for_the_table(table, epoch, iter, prefix + key, key, op);
    }
    assert forall|key: Seq<u8>|
        admits(
            (iter.cell_based_bounds.0@, iter.cell_based_bounds.1@),
            #[trigger] (prefix + key),
        ) by {
        lemma_scan_asks_for_the_table(
            table,
            epoch,
            iter,
            prefix + key,
            key,
            RowOpView::Insert(Seq::empty()),
        );
    }
    lemma_scan_asks_for_the_table(
        table,
        epoch,
        iter,
        prefix,
        prefix,
        RowOpView::Insert(Seq::empty()),
    );
    let keys = lemma_scan_of_some_keys(iter, prefix, buffered, asked, store, items, stream);
    assert forall|key: Seq<u8>|
        (if buffered.contains_key(key) {
            !(buffered[key] is Delete)
        } else {
            store.contains_key(prefix + key)
        }) implies #[trigger] keys.contains(key) by {
        assert(asked(key));
    }
    keys
}

/// A row that was inserted is among the rows that a scan of the table yields, whole, before it is
/// committed, whatever is stored.
pub proof fn lemma_inserted_row_is_scanned<
    'a,
    S,
    SER,
    F: Fn(&Row, &OrderedRowSerializer) -> Vec<u8>,
>(
    before: &mut StateTableExtended<S, SER>,
    value: Row,
    serialize_pk: F,
    table: &'a StateTableExtended<S, SER>,
    epoch: u64,
    iter: StateTableRowIter<'a, S>,
    store: Map<Seq<u8>, RowView>,
    items: Vec<StorageResult<(Vec<u8>, Row)>>,
    stream: Vec<StorageResult<Row>>,
)
    requires
        call_ensures(
            StateTableExtended::<S, SER>::insert::<F>,
            (before, value, serialize_pk),
            Ok::<(), StorageError>(()),
        ),
        *table == *final(before),
        call_ensures(StateTableExtended::<S, SER>::iter, (table, epoch), iter),
        call_ensures(StateTableRowIter::<S>::into_stream, (iter, items), stream),
        forall|i: int| 0 <= i < items@.len() ==> #[trigger] items@[i] is Ok,
        forall|i: int, j: int|
            0 <= i < j < items@.len() ==> key_lt(
                (#[trigger] items@[i])->Ok_0.0@,
                (#[trigger] items@[j])->Ok_0.0@,
            ),
        forall|i: int|
            0 <= i < items@.len() ==> {
                &&& store.contains_pair(
                    table.keyspace().prefix@ + (#[trigger] items@[i])->Ok_0.0@,
                    items@[i]->Ok_0.1@,
                )
                &&& admits(
                    (iter.cell_based_bounds.0@, iter.cell_based_bounds.1@),
                    table.keyspace().prefix@ + items@[i]->Ok_0.0@,
                )
            },
        forall|key: Seq<u8>| #[trigger]
            store.contains_key(table.keyspace().prefix@ + key) && admits(
                (iter.cell_based_bounds.0@, iter.cell_based_bounds.1@),
                table.keyspace().prefix@ + key,
            ) ==> exists|i: int|
                0 <= i < items@.len() && (#[trigger] items@[i])->Ok_0.0@ == key,
    ensures
        exists|i: int|
            0 <= i < stream@.len() && (#[trigger] stream@[i] matches Ok(row) && row@ == value@),
{
    let keys = lemma_full_scan_reads_the_table(table, epoch, iter, store, items, stream);
    let (pk, key) = choose|pk: Row, key: Vec<u8>|
        {
            &&& pk@ == old(before).pk_of(value@)
            &&& #[trigger] call_ensures(
                serialize_pk,
                (&pk, &old(before).pk_serializer()),
                key,
            )
            &&& table.mem_table()@.contains_key(key@)
            &&& match table.mem_table()@[key@] {
                RowOpView::Insert(row) => row == value@,
                RowOpView::Update(_, row) => row == value@,
                RowOpView::Delete(_) => false,
            }
        };
    assert(keys.contains(key@));
    let i = choose|i: int| 0 <= i < keys.len() && keys[i] == key@;
    assert(stream@[i] is Ok);
}

} // verus!
