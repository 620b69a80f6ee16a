use managed_state::catalog::{ColumnDesc, ColumnId, DataType, OrderType, OrderedRowSerializer};
use managed_state::error::{RwError, StorageError, StorageResult};
use managed_state::key::{Bound, Keyspace};
use managed_state::mem_table::RowOp;
use managed_state::row::{Row, ScalarImpl};
use managed_state::row_iter::{MergeStep, StateTableRowIter};
use managed_state::state_table::{RowLookup, StateTable};

/// Eight bytes for each column, such that keys are ordered as the numbers are.
fn serialize_pk(pk: &Row, serializer: &OrderedRowSerializer) -> Vec<u8> {
    let mut key = Vec::new();
    for (datum, order) in pk.0.iter().zip(serializer.order_types.iter()) {
        let value = match datum {
            Some(ScalarImpl::Int64(value)) => *value,
            other => panic!("{:?}", other),
        };
        let mut bits = (value as u64) ^ (1 << 63);
        if *order == OrderType::Descending {
            bits = !bits;
        }
        key.extend_from_slice(&bits.to_be_bytes());
    }
    key
}

fn int_row(values: &[i64]) -> Row {
    Row::new(values.iter().map(|v| Some(ScalarImpl::Int64(*v))).collect())
}

fn ascending(n: usize) -> OrderedRowSerializer {
    OrderedRowSerializer::new(vec![OrderType::Ascending; n])
}

/// Three columns, of which the first two are the key.
fn table() -> StateTable<()> {
    let column = |id: i32| ColumnDesc::unnamed(ColumnId(id), DataType::Int64);
    StateTable::new(
        Keyspace::new((), b"t1".to_vec()),
        vec![column(0), column(1), column(2)],
        vec![OrderType::Ascending, OrderType::Ascending],
        Some(vec![0]),
        vec![0, 1],
    )
}

fn stored(rows: &[[i64; 3]]) -> Vec<StorageResult<(Vec<u8>, Row)>> {
    rows.iter()
        .map(|r| Ok((serialize_pk(&int_row(&r[..2]), &ascending(2)), int_row(r))))
        .collect()
}

fn failing(rows: &[[i64; 3]]) -> Vec<StorageResult<(Vec<u8>, Row)>> {
    let mut items = stored(rows);
    items.push(Err(StorageError::Store("disk".to_string())));
    items
}

fn rows(
    iter: StateTableRowIter<'_, ()>,
    items: Vec<StorageResult<(Vec<u8>, Row)>>,
) -> Vec<Row> {
    iter.into_stream(items)
        .into_iter()
        .map(|item| item.unwrap())
        .collect()
}

fn int_rows(values: &[[i64; 3]]) -> Vec<Row> {
    values.iter().map(|v| int_row(v)).collect()
}

#[test]
fn a_new_table_knows_its_layout() {
    let table = table();
    assert_eq!(table.get_keyspace().key(), &b"t1".to_vec());
    assert_eq!(table.get_pk_indices(), &vec![0, 1]);
    let layout = table.get_cell_based_table();
    assert_eq!(layout.column_descs.len(), 3);
    assert_eq!(layout.pk_serializer, Some(ascending(2)));
    assert_eq!(layout.dist_key_indices, Some(vec![0]));
}

#[test]
fn get_row_reads_the_buffer_first() {
    let mut table = table();
    assert!(table.insert(int_row(&[1, 2, 30]), serialize_pk).is_ok());
    match table.get_row(&int_row(&[1, 2]), 9, serialize_pk) {
        RowLookup::Buffered(Some(row)) => assert_eq!(row, int_row(&[1, 2, 30])),
        other => panic!("{:?}", other),
    }
    match table.get_row(&int_row(&[1, 3]), 9, serialize_pk) {
        RowLookup::Stored { epoch } => assert_eq!(epoch, 9),
        other => panic!("{:?}", other),
    }
    assert!(table.delete(int_row(&[4, 4, 40]), serialize_pk).is_ok());
    let gone = table.get_row(&int_row(&[4, 4]), 9, serialize_pk);
    assert!(matches!(gone, RowLookup::Buffered(None)));
    assert!(table.insert(int_row(&[4, 4, 41]), serialize_pk).is_ok());
    match table.get_row(&int_row(&[4, 4]), 9, serialize_pk) {
        RowLookup::Buffered(Some(row)) => assert_eq!(row, int_row(&[4, 4, 41])),
        other => panic!("{:?}", other),
    }
}

#[test]
fn storage_answers_only_where_it_is_asked() {
    let buffered = RowLookup::Buffered(Some(int_row(&[1])));
    assert_eq!(buffered.resolve(Ok(Some(int_row(&[2])))).unwrap(), Some(int_row(&[1])));
    assert_eq!(RowLookup::Buffered(None).resolve(Ok(Some(int_row(&[2])))).unwrap(), None);
    let asked = RowLookup::Stored { epoch: 1 };
    assert_eq!(asked.resolve(Ok(Some(int_row(&[2])))).unwrap(), Some(int_row(&[2])));
    let failed = RowLookup::Stored { epoch: 1 }.resolve(Err(StorageError::Store("x".to_string())));
    assert!(matches!(failed, Err(StorageError::Store(_))));
}

#[test]
fn conflicting_writes_are_errors_of_the_table() {
    let mut table = table();
    assert!(table.insert(int_row(&[1, 2, 3]), serialize_pk).is_ok());
    assert!(matches!(
        table.insert(int_row(&[1, 2, 4]), serialize_pk),
        Err(StorageError::StateTable(RwError::DoubleInsert))
    ));
    assert!(table.delete(int_row(&[5, 5, 5]), serialize_pk).is_ok());
    assert!(matches!(
        table.delete(int_row(&[5, 5, 5]), serialize_pk),
        Err(StorageError::StateTable(RwError::DoubleDelete))
    ));
}

#[test]
fn commit_hands_the_buffer_over() {
    let mut table = table();
    assert!(table.insert(int_row(&[2, 0, 20]), serialize_pk).is_ok());
    assert!(table.insert(int_row(&[1, 0, 10]), serialize_pk).is_ok());
    let batch = table.commit(77);
    assert_eq!(batch.epoch, 77);
    assert!(!batch.with_value_meta);
    assert_eq!(batch.rows.len(), 2);
    assert_eq!(batch.rows[0].0, serialize_pk(&int_row(&[1, 0]), &ascending(2)));
    assert!(matches!(&batch.rows[0].1, RowOp::Insert(row) if *row == int_row(&[1, 0, 10])));
    assert!(matches!(&batch.rows[1].1, RowOp::Insert(row) if *row == int_row(&[2, 0, 20])));
    assert!(matches!(table.get_row(&int_row(&[1, 0]), 78, serialize_pk), RowLookup::Stored { .. }));
    assert!(table.insert(int_row(&[3, 0, 30]), serialize_pk).is_ok());
    let batch = table.commit_with_value_meta(78);
    assert!(batch.with_value_meta);
    assert_eq!(batch.rows.len(), 1);
}

#[test]
fn a_scan_sees_the_same_before_and_after_a_commit() {
    let mut table = table();
    let before = [[1, 1, 10], [2, 2, 20], [3, 3, 30]];
    assert!(table.delete(int_row(&[2, 2, 20]), serialize_pk).is_ok());
    assert!(table.delete(int_row(&[3, 3, 30]), serialize_pk).is_ok());
    assert!(table.insert(int_row(&[3, 3, 31]), serialize_pk).is_ok());
    assert!(table.insert(int_row(&[0, 0, 0]), serialize_pk).is_ok());
    let expected = [[0, 0, 0], [1, 1, 10], [3, 3, 31]];
    assert_eq!(rows(table.iter(5), stored(&before)), int_rows(&expected));
    let _ = table.commit(5);
    assert_eq!(rows(table.iter(6), stored(&expected)), int_rows(&expected));
}

#[test]
fn a_scan_merges_storage_and_buffer() {
    let mut table = table();
    assert!(table.insert(int_row(&[1, 0, 1]), serialize_pk).is_ok());
    assert!(table.insert(int_row(&[3, 0, 3]), serialize_pk).is_ok());
    assert!(table.delete(int_row(&[4, 0, 4]), serialize_pk).is_ok());
    assert!(table.insert(int_row(&[9, 0, 9]), serialize_pk).is_ok());
    let items = stored(&[[2, 0, 2], [4, 0, 4], [6, 0, 6]]);
    assert_eq!(
        rows(table.iter(1), items),
        int_rows(&[[1, 0, 1], [2, 0, 2], [3, 0, 3], [6, 0, 6], [9, 0, 9]])
    );
}

#[test]
fn a_row_of_both_is_read_from_the_buffer() {
    let mut table = table();
    assert!(table.insert(int_row(&[2, 0, 99]), serialize_pk).is_ok());
    let items = stored(&[[2, 0, 2], [4, 0, 4]]);
    assert_eq!(rows(table.iter(1), items), int_rows(&[[2, 0, 99], [4, 0, 4]]));
}

#[test]
fn a_deletion_of_a_row_that_is_not_stored_yields_nothing() {
    let mut table = table();
    assert!(table.delete(int_row(&[1, 0, 1]), serialize_pk).is_ok());
    assert!(table.delete(int_row(&[8, 0, 8]), serialize_pk).is_ok());
    assert_eq!(rows(table.iter(1), stored(&[[4, 0, 4]])), int_rows(&[[4, 0, 4]]));
}

#[test]
fn an_update_after_the_last_stored_row_is_yielded() {
    let mut table = table();
    assert!(table.delete(int_row(&[8, 0, 8]), serialize_pk).is_ok());
    assert!(table.insert(int_row(&[8, 0, 9]), serialize_pk).is_ok());
    assert_eq!(rows(table.iter(1), stored(&[[4, 0, 4]])), int_rows(&[[4, 0, 4], [8, 0, 9]]));
}

#[test]
fn an_error_of_storage_ends_a_scan() {
    let mut table = table();
    assert!(table.insert(int_row(&[1, 0, 1]), serialize_pk).is_ok());
    assert!(table.insert(int_row(&[3, 0, 3]), serialize_pk).is_ok());
    let stream = table.iter(1).into_stream(failing(&[[2, 0, 2]]));
    assert_eq!(stream.len(), 3);
    assert!(matches!(&stream[0], Ok(row) if *row == int_row(&[1, 0, 1])));
    assert!(matches!(&stream[1], Ok(row) if *row == int_row(&[2, 0, 2])));
    assert!(matches!(&stream[2], Err(StorageError::Store(_))));
}

#[test]
fn an_error_at_once_yields_no_row() {
    let mut table = table();
    assert!(table.insert(int_row(&[1, 0, 1]), serialize_pk).is_ok());
    let stream = table.iter(1).into_stream(failing(&[]));
    assert_eq!(stream.len(), 1);
    assert!(stream[0].is_err());
}

#[test]
fn an_error_without_a_buffer_comes_after_the_rows() {
    let table = table();
    let stream = table.iter(1).into_stream(failing(&[[2, 0, 2], [3, 0, 3]]));
    assert_eq!(stream.len(), 3);
    assert!(stream[1].is_ok());
    assert!(stream[2].is_err());
}

#[test]
fn nothing_stored_and_nothing_buffered() {
    let table = table();
    assert!(table.iter(1).into_stream(Vec::new()).is_empty());
}

#[test]
fn a_scan_asks_storage_for_its_keyspace() {
    let table = table();
    let iter = table.iter(42);
    assert_eq!(iter.epoch, 42);
    assert_eq!(iter.keyspace.key(), &b"t1".to_vec());
    assert_eq!(iter.table_descs.column_descs.len(), 3);
    assert_eq!(
        iter.cell_based_bounds,
        (Bound::Included(b"t1".to_vec()), Bound::Excluded(b"t2".to_vec()))
    );
}

#[test]
fn a_scan_of_a_keyspace_without_a_next_key() {
    let table: StateTable<()> =
        StateTable::new(Keyspace::new((), vec![0xff]), Vec::new(), Vec::new(), None, Vec::new());
    let iter = table.iter(1);
    assert_eq!(iter.cell_based_bounds, (Bound::Included(vec![0xff]), Bound::Unbounded));
}

#[test]
fn a_scan_within_bounds() {
    let mut table = table();
    for i in 1..=5 {
        assert!(table.insert(int_row(&[i, 0, i]), serialize_pk).is_ok());
    }
    let pk = |i: i64| int_row(&[i, 0]);
    let stored_key = |i: i64| {
        let mut key = b"t1".to_vec();
        key.extend_from_slice(&serialize_pk(&int_row(&[i, 0]), &ascending(2)));
        key
    };
    let bounds = (Bound::Included(pk(2)), Bound::Excluded(pk(4)));
    let iter = table.iter_with_pk_bounds(&bounds, 3, serialize_pk);
    assert_eq!(
        iter.cell_based_bounds,
        (Bound::Included(stored_key(2)), Bound::Excluded(stored_key(4)))
    );
    assert_eq!(iter.epoch, 3);
    assert_eq!(rows(iter, Vec::new()), int_rows(&[[2, 0, 2], [3, 0, 3]]));

    let bounds = (Bound::Excluded(pk(4)), Bound::Unbounded);
    let iter = table.iter_with_pk_bounds(&bounds, 3, serialize_pk);
    assert_eq!(iter.cell_based_bounds, (Bound::Excluded(stored_key(4)), Bound::Unbounded));
    assert_eq!(rows(iter, Vec::new()), int_rows(&[[5, 0, 5]]));

    let bounds = (Bound::Unbounded, Bound::Included(pk(1)));
    let iter = table.iter_with_pk_bounds(&bounds, 3, serialize_pk);
    assert_eq!(rows(iter, Vec::new()), int_rows(&[[1, 0, 1]]));
}

#[test]
fn bounds_out_of_order_have_no_scan() {
    let table = table();
    let pk = |i: i64| int_row(&[i, 0]);
    let bounds = (Bound::Included(pk(4)), Bound::Included(pk(2)));
    assert!(table.checked_iter_with_pk_bounds(&bounds, 3, serialize_pk).is_none());
    let bounds = (Bound::Included(pk(2)), Bound::Included(pk(4)));
    let iter = table.checked_iter_with_pk_bounds(&bounds, 3, serialize_pk).unwrap();
    assert_eq!(iter.epoch, 3);
    let bounds = (Bound::Excluded(pk(4)), Bound::Excluded(pk(4)));
    assert!(table.checked_iter_with_pk_bounds(&bounds, 3, serialize_pk).is_none());
}

#[test]
fn a_scan_of_a_prefix() {
    let mut table = table();
    for (a, b) in [(1, 1), (1, 2), (2, 1), (2, 2), (3, 1)] {
        assert!(table.insert(int_row(&[a, b, 10 * a + b]), serialize_pk).is_ok());
    }
    let prefix = int_row(&[2]);
    let iter = table.iter_with_pk_prefix(Some(&prefix), ascending(1), 8, serialize_pk);
    let mut start = b"t1".to_vec();
    start.extend_from_slice(&serialize_pk(&int_row(&[2]), &ascending(1)));
    let mut end = b"t1".to_vec();
    end.extend_from_slice(&serialize_pk(&int_row(&[3]), &ascending(1)));
    assert_eq!(iter.cell_based_bounds, (Bound::Included(start), Bound::Excluded(end)));
    assert_eq!(iter.epoch, 8);
    assert_eq!(rows(iter, stored(&[[2, 0, 0]])), int_rows(&[[2, 0, 0], [2, 1, 21], [2, 2, 22]]));

    let iter = table.iter_with_pk_prefix(None, ascending(1), 8, serialize_pk);
    assert_eq!(rows(iter, Vec::new()).len(), 5);
}

#[test]
fn a_scan_of_the_empty_prefix_reads_everything() {
    let mut table = table();
    assert!(table.insert(int_row(&[1, 1, 1]), serialize_pk).is_ok());
    let prefix = int_row(&[]);
    let iter = table.iter_with_pk_prefix(Some(&prefix), ascending(0), 8, serialize_pk);
    assert_eq!(
        iter.cell_based_bounds,
        (Bound::Included(b"t1".to_vec()), Bound::Excluded(b"t2".to_vec()))
    );
    assert_eq!(rows(iter, Vec::new()), int_rows(&[[1, 1, 1]]));
}

#[test]
fn the_steps_of_a_scan() {
    let mut table = table();
    assert!(table.insert(int_row(&[1, 0, 1]), serialize_pk).is_ok());
    assert!(table.delete(int_row(&[2, 0, 2]), serialize_pk).is_ok());
    let items = stored(&[[2, 0, 2], [3, 0, 3]]);
    let mut iter = table.iter(1);
    match iter.next_step(Some(&items[0])) {
        MergeStep::Yield { row, with_stored } => {
            assert_eq!(*row, int_row(&[1, 0, 1]));
            assert!(!with_stored);
        }
        other => panic!("{:?}", other),
    }
    assert!(matches!(iter.next_step(Some(&items[0])), MergeStep::Skip { with_stored: true }));
    assert!(matches!(iter.next_step(Some(&items[1])), MergeStep::TakeStored));
    assert!(matches!(iter.next_step(None), MergeStep::Done));
}

#[test]
fn a_copy_of_a_table_has_its_own_buffer() {
    let mut table = table();
    assert!(table.insert(int_row(&[1, 0, 1]), serialize_pk).is_ok());
    let mut copy = table.clone();
    assert!(copy.insert(int_row(&[2, 0, 2]), serialize_pk).is_ok());
    assert_eq!(rows(table.iter(1), Vec::new()), int_rows(&[[1, 0, 1]]));
    assert_eq!(rows(copy.iter(1), Vec::new()), int_rows(&[[1, 0, 1], [2, 0, 2]]));
}
