use managed_state::catalog::{ColumnDesc, ColumnId, DataType, OrderType, OrderedRowSerializer};
use managed_state::error::{RwError, RwResult, StorageError, StorageResult};
use managed_state::join_entry_state::JoinEntryState;
use managed_state::join_hash_map::{HashKey, JoinHashMap};
use managed_state::join_row::JoinRow;
use managed_state::key::Keyspace;
use managed_state::mem_table::RowOp;
use managed_state::row::{Row, ScalarImpl};

/// Eight bytes for each column, in the direction of the column.
fn serialize_pk(pk: &Row, serializer: &OrderedRowSerializer) -> Vec<u8> {
    let mut key = Vec::new();
    for (datum, order) in pk.0.iter().zip(serializer.order_types.iter()) {
        let value = match datum {
            Some(ScalarImpl::Int64(value)) => *value,
            other => panic!("{:?}", other),
        };
        let mut bits = (value as u64) ^ (1 << 63);
        if *order == OrderType::Descending {
            bits = !bits;
        }
        key.extend_from_slice(&bits.to_be_bytes());
    }
    key
}

/// A join key is a byte that stands for a number.
fn deserialize(key: &HashKey, data_types: &Vec<DataType>) -> RwResult<Row> {
    assert_eq!(data_types, &vec![DataType::Int64]);
    if key.0.len() == 1 {
        Ok(int_row(&[key.0[0] as i64]))
    } else {
        Err(RwError::InternalError("not a join key".to_string()))
    }
}

fn int_row(values: &[i64]) -> Row {
    Row::new(values.iter().map(|v| Some(ScalarImpl::Int64(*v))).collect())
}

/// Columns: the join key, a primary key within it, a value.
fn map() -> JoinHashMap<()> {
    JoinHashMap::new(
        1,
        vec![0, 1],
        vec![0],
        vec![DataType::Int64, DataType::Int64, DataType::Int64],
        Keyspace::new((), b"j".to_vec()),
        None,
    )
}

fn join_key(k: u8) -> HashKey {
    HashKey(vec![k])
}

fn insert(map: &mut JoinHashMap<()>, k: u8, pk: i64, value: i64, degree: i64) -> RwResult<()> {
    let row = int_row(&[k as i64, pk, value]);
    map.insert(
        &join_key(k),
        int_row(&[k as i64, pk]),
        JoinRow::new(row, degree),
        deserialize,
        serialize_pk,
    )
}

/// What the map reads for a join key when storage is empty.
fn fetch(map: &JoinHashMap<()>, k: u8) -> RwResult<Option<JoinEntryState>> {
    let rows = map
        .cached_state_scan(&join_key(k), deserialize, serialize_pk)?
        .into_stream(Vec::new());
    map.fetch_cached_state(rows)
}

#[test]
fn a_new_join_map_describes_its_columns() {
    let map = map();
    let layout = map.get_state_table().get_cell_based_table();
    assert_eq!(
        layout.column_descs,
        vec![
            ColumnDesc::unnamed(ColumnId(0), DataType::Int64),
            ColumnDesc::unnamed(ColumnId(1), DataType::Int64),
            ColumnDesc::unnamed(ColumnId(2), DataType::Int64),
        ]
    );
    assert_eq!(
        layout.pk_serializer,
        Some(OrderedRowSerializer::new(vec![OrderType::Descending; 3]))
    );
    assert_eq!(layout.dist_key_indices, None);
    assert_eq!(map.get_state_table().get_pk_indices(), &vec![0, 1]);
    assert_eq!(map.target_cap(), 1);
    assert_eq!(map.len(), 0);
}

#[test]
fn a_key_without_rows_does_not_exist() {
    let mut map = map();
    let fetched = fetch(&map, 4).unwrap();
    assert!(fetched.is_none());
    assert!(map.get(&join_key(4), None).is_none());
    assert!(map.get_mut(&join_key(4), None).is_none());
    assert!(!map.contains(&join_key(4), None));
    assert_eq!(map.len(), 0);
}

#[test]
fn rows_are_fetched_and_cached() {
    let mut map = map();
    assert!(insert(&mut map, 4, 1, 100, 2).is_ok());
    assert!(insert(&mut map, 4, 2, 200, 0).is_ok());
    assert!(insert(&mut map, 5, 1, 300, 0).is_ok());
    assert!(!map.is_cached(&join_key(4)));
    let fetched = fetch(&map, 4).unwrap();
    let state = map.get(&join_key(4), fetched).unwrap();
    assert_eq!(state.get(&int_row(&[4, 1])).unwrap().row, int_row(&[4, 1, 100]));
    assert!(!state.get(&int_row(&[4, 1])).unwrap().is_zero_degree());
    assert!(state.get(&int_row(&[4, 2])).unwrap().is_zero_degree());
    assert!(state.get(&int_row(&[5, 1])).is_none());
    assert!(map.is_cached(&join_key(4)));
    assert!(map.contains(&join_key(4), None));
}

#[test]
fn a_cached_entry_agrees_with_a_fetch() {
    let mut map = map();
    assert!(insert(&mut map, 4, 1, 100, 0).is_ok());
    let fetched = fetch(&map, 4).unwrap();
    assert!(map.contains(&join_key(4), fetched));
    assert!(insert(&mut map, 4, 2, 200, 3).is_ok());
    let deleted = map.delete(
        &join_key(4),
        int_row(&[4, 1]),
        int_row(&[4, 1, 100, 0]),
        deserialize,
        serialize_pk,
    );
    assert!(deleted.is_ok());
    let again = fetch(&map, 4).unwrap().unwrap();
    let cached = map.get(&join_key(4), None).unwrap();
    for pk in [int_row(&[4, 1]), int_row(&[4, 2])] {
        match (cached.get(&pk), again.get(&pk)) {
            (Some(a), Some(b)) => assert_eq!(a.clone().into_row(), b.clone().into_row()),
            (None, None) => {}
            other => panic!("{:?}", other),
        }
    }
    assert!(cached.get(&int_row(&[4, 1])).is_none());
    assert_eq!(
        cached.get(&int_row(&[4, 2])).unwrap().clone().into_row(),
        int_row(&[4, 2, 200, 3])
    );
}

#[test]
fn cached_rows_can_be_changed() {
    let mut map = map();
    assert!(insert(&mut map, 4, 1, 100, 0).is_ok());
    let fetched = fetch(&map, 4).unwrap();
    let state = map.get_mut(&join_key(4), fetched).unwrap();
    state.remove(int_row(&[4, 1]));
    assert!(map.get(&join_key(4), None).unwrap().get(&int_row(&[4, 1])).is_none());
    assert!(map.is_cached(&join_key(4)));
}

#[test]
fn the_cache_shrinks_to_its_capacity() {
    let mut map = map();
    assert!(map.contains(&join_key(1), Some(JoinEntryState::new())));
    assert!(map.contains(&join_key(2), Some(JoinEntryState::new())));
    assert!(map.get(&join_key(1), None).is_some());
    map.evict_to_target_cap();
    assert!(map.is_cached(&join_key(1)));
    assert!(!map.is_cached(&join_key(2)));
}

#[test]
fn a_key_that_cannot_be_decoded_is_an_error() {
    let mut map = map();
    let bad = HashKey(vec![1, 2]);
    assert!(map.cached_state_scan(&bad, deserialize, serialize_pk).is_err());
    assert!(map.contains(&bad, Some(JoinEntryState::new())));
    let pk = int_row(&[9, 9]);
    let value = JoinRow::new(int_row(&[9, 9, 9]), 0);
    let inserted = map.insert(&bad, pk.clone(), value, deserialize, serialize_pk);
    assert!(matches!(inserted, Err(RwError::InternalError(_))));
    assert!(map.get(&bad, None).unwrap().get(&pk).is_some());
    assert!(map.flush().rows.is_empty());
    let deleted =
        map.delete(&bad, pk.clone(), int_row(&[9, 9, 9, 0]), deserialize, serialize_pk);
    assert!(matches!(deleted, Err(RwError::InternalError(_))));
    assert!(map.get(&bad, None).unwrap().get(&pk).is_none());
}

#[test]
fn a_short_row_under_a_key_that_cannot_be_decoded_is_an_error() {
    let mut map = map();
    let bad = HashKey(vec![1, 2]);
    assert!(map.contains(&bad, Some(JoinEntryState::new())));
    let pk = int_row(&[9, 9]);
    let value = JoinRow::new(int_row(&[]), 7);
    let inserted = map.insert(&bad, pk.clone(), value, deserialize, serialize_pk);
    match inserted {
        Err(RwError::InternalError(message)) => assert_eq!(message, "not a join key"),
        other => panic!("{:?}", other),
    }
    let cached = map.get(&bad, None).unwrap().get(&pk).unwrap().clone();
    assert_eq!(cached.into_row(), int_row(&[7]));
    let deleted = map.delete(&bad, pk.clone(), int_row(&[]), deserialize, serialize_pk);
    assert!(matches!(deleted, Err(RwError::InternalError(_))));
    assert!(map.get(&bad, None).unwrap().get(&pk).is_none());
    assert!(map.flush().rows.is_empty());
}

#[test]
fn a_refused_row_is_an_error_of_storage() {
    let mut map = map();
    assert!(insert(&mut map, 4, 1, 100, 0).is_ok());
    match insert(&mut map, 4, 1, 101, 0) {
        Err(RwError::StorageError(error)) => {
            assert!(matches!(*error, StorageError::StateTable(RwError::DoubleInsert)));
        }
        other => panic!("{:?}", other),
    }
}

#[test]
fn a_failing_scan_is_an_error() {
    let map = map();
    let rows: Vec<StorageResult<Row>> = vec![
        Ok(int_row(&[4, 1, 100, 0])),
        Err(StorageError::Store("disk".to_string())),
        Ok(int_row(&[4, 2, 100, 0])),
    ];
    match map.fetch_cached_state(rows) {
        Err(RwError::StorageError(error)) => {
            assert!(matches!(*error, StorageError::Store(_)));
        }
        other => panic!("{:?}", other),
    }
}

#[test]
fn of_rows_with_the_same_primary_key_the_last_counts() {
    let map = map();
    let rows: Vec<StorageResult<Row>> =
        vec![Ok(int_row(&[4, 1, 100, 0])), Ok(int_row(&[4, 1, 200, 7]))];
    let state = map.fetch_cached_state(rows).unwrap().unwrap();
    assert_eq!(
        state.get(&int_row(&[4, 1])).unwrap().clone().into_row(),
        int_row(&[4, 1, 200, 7])
    );
}

#[test]
fn the_order_of_the_rows_does_not_matter() {
    let map = map();
    let a = int_row(&[4, 1, 100, 0]);
    let b = int_row(&[4, 2, 200, 7]);
    let one = map.fetch_cached_state(vec![Ok(a.clone()), Ok(b.clone())]).unwrap().unwrap();
    let other = map.fetch_cached_state(vec![Ok(b), Ok(a)]).unwrap().unwrap();
    for pk in [int_row(&[4, 1]), int_row(&[4, 2])] {
        assert_eq!(
            one.get(&pk).unwrap().clone().into_row(),
            other.get(&pk).unwrap().clone().into_row()
        );
    }
}

#[test]
fn a_write_for_one_join_key_leaves_the_others_alone() {
    let mut map = map();
    assert!(insert(&mut map, 4, 1, 100, 0).is_ok());
    assert!(insert(&mut map, 5, 1, 500, 0).is_ok());
    let four = fetch(&map, 4).unwrap().unwrap();
    assert!(four.get(&int_row(&[4, 1])).is_some());
    assert!(four.get(&int_row(&[5, 1])).is_none());
    assert!(fetch(&map, 6).unwrap().is_none());
}

#[test]
fn a_flush_hands_over_what_was_written() {
    let mut map = map();
    map.update_epoch(12);
    assert!(insert(&mut map, 4, 1, 100, 5).is_ok());
    let batch = map.flush();
    assert_eq!(batch.epoch, 12);
    assert!(batch.with_value_meta);
    assert_eq!(batch.rows.len(), 1);
    assert!(matches!(&batch.rows[0].1, RowOp::Insert(row) if *row == int_row(&[4, 1, 100, 5])));
    assert!(map.flush().rows.is_empty());
}

#[test]
fn the_outcome_of_a_flush() {
    assert!(JoinHashMap::<()>::flush_result(Ok(())).is_ok());
    let failed = JoinHashMap::<()>::flush_result(Err(StorageError::Store("x".to_string())));
    assert!(matches!(failed, Err(RwError::StorageError(_))));
}

#[test]
fn the_cache_counts_its_own_storage() {
    let slot = std::mem::size_of::<(Vec<u8>, JoinEntryState)>();
    let mut map = map();
    assert_eq!(map.bytes_in_use(), 0);
    for k in 1..=5 {
        assert!(map.contains(&join_key(k), Some(JoinEntryState::new())));
        assert!(map.bytes_in_use() >= k as usize * slot);
        assert_eq!(map.bytes_in_use() % slot, 0);
    }
    let other = self::map();
    assert_eq!(other.bytes_in_use(), 0);
}

#[test]
fn an_inserted_row_is_read_beside_the_stored_ones() {
    let mut map = map();
    let descending = |n: usize| OrderedRowSerializer::new(vec![OrderType::Descending; n]);
    let stored = |row: &[i64]| Ok((serialize_pk(&int_row(&row[..2]), &descending(2)), int_row(row)));
    assert!(insert(&mut map, 4, 2, 222, 6).is_ok());
    let items = vec![stored(&[4, 3, 300, 1]), stored(&[4, 2, 200, 0]), stored(&[4, 1, 100, 0])];
    let stream = map
        .cached_state_scan(&join_key(4), deserialize, serialize_pk)
        .unwrap()
        .into_stream(items);
    let remote = map.fetch_cached_state(stream).unwrap();
    let state = map.get(&join_key(4), remote).unwrap();
    let row = |pk: i64| state.get(&int_row(&[4, pk])).unwrap().clone().into_row();
    assert_eq!(row(1), int_row(&[4, 1, 100, 0]));
    assert_eq!(row(2), int_row(&[4, 2, 222, 6]));
    assert_eq!(row(3), int_row(&[4, 3, 300, 1]));
    assert!(state.get(&int_row(&[4, 4])).is_none());
    assert!(map.is_cached(&join_key(4)));
}

#[test]
fn a_deleted_row_is_not_read_among_the_stored_ones() {
    let mut map = map();
    let descending = |n: usize| OrderedRowSerializer::new(vec![OrderType::Descending; n]);
    let stored = |row: &[i64]| Ok((serialize_pk(&int_row(&row[..2]), &descending(2)), int_row(row)));
    let delete = |map: &mut JoinHashMap<()>, pk: i64, row: &[i64]| {
        map.delete(&join_key(4), int_row(&[4, pk]), int_row(row), deserialize, serialize_pk)
    };
    assert!(delete(&mut map, 2, &[4, 2, 200, 0]).is_ok());
    let items = vec![stored(&[4, 3, 300, 1]), stored(&[4, 2, 200, 0])];
    let stream = map
        .cached_state_scan(&join_key(4), deserialize, serialize_pk)
        .unwrap()
        .into_stream(items);
    let remote = map.fetch_cached_state(stream).unwrap();
    let state = map.get(&join_key(4), remote).unwrap();
    assert!(state.get(&int_row(&[4, 2])).is_none());
    let left = state.get(&int_row(&[4, 3])).unwrap().clone();
    assert_eq!(left.into_row(), int_row(&[4, 3, 300, 1]));
    assert!(map.is_cached(&join_key(4)));
}

#[test]
fn nothing_is_read_once_the_last_row_is_deleted() {
    let mut map = map();
    let descending = OrderedRowSerializer::new(vec![OrderType::Descending; 2]);
    let deleted = map.delete(
        &join_key(4),
        int_row(&[4, 2]),
        int_row(&[4, 2, 200, 0]),
        deserialize,
        serialize_pk,
    );
    assert!(deleted.is_ok());
    let items =
        vec![Ok((serialize_pk(&int_row(&[4, 2]), &descending), int_row(&[4, 2, 200, 0])))];
    let stream = map
        .cached_state_scan(&join_key(4), deserialize, serialize_pk)
        .unwrap()
        .into_stream(items);
    let remote = map.fetch_cached_state(stream).unwrap();
    assert!(map.get(&join_key(4), remote).is_none());
    assert!(!map.is_cached(&join_key(4)));
    assert_eq!(map.len(), 0);
}
