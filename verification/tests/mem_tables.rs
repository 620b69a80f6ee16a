use managed_state::error::RwError;
use managed_state::key::Bound;
use managed_state::mem_table::{MemTable, RowOp};
use managed_state::row::{Row, ScalarImpl};

fn row(value: i64) -> Row {
    Row::new(vec![Some(ScalarImpl::Int64(value))])
}

fn key(k: u8) -> Vec<u8> {
    vec![k]
}

fn keys(table: &MemTable, start: Bound<Vec<u8>>, end: Bound<Vec<u8>>) -> Vec<Vec<u8>> {
    let mut range = table.range(&start, &end);
    let mut keys = Vec::new();
    while let Some((k, _)) = range.peek() {
        keys.push(k.clone());
        range.skip_one();
    }
    keys
}

#[test]
fn an_inserted_row_is_found() {
    let mut table = MemTable::new();
    assert!(table.get_row(&key(1)).is_none());
    assert!(table.insert(key(1), row(10)).is_ok());
    assert!(matches!(table.get_row(&key(1)), Some(RowOp::Insert(r)) if *r == row(10)));
    assert!(table.get_row(&key(2)).is_none());
}

#[test]
fn a_second_insert_is_refused() {
    let mut table = MemTable::new();
    assert!(table.insert(key(1), row(10)).is_ok());
    assert!(matches!(table.insert(key(1), row(11)), Err(RwError::DoubleInsert)));
    assert!(matches!(table.get_row(&key(1)), Some(RowOp::Insert(r)) if *r == row(10)));
    assert!(table.delete(key(2), row(20)).is_ok());
    assert!(table.insert(key(2), row(21)).is_ok());
    assert!(matches!(table.insert(key(2), row(22)), Err(RwError::DoubleInsert)));
}

#[test]
fn a_second_delete_is_refused() {
    let mut table = MemTable::new();
    assert!(table.delete(key(1), row(10)).is_ok());
    assert!(matches!(table.delete(key(1), row(10)), Err(RwError::DoubleDelete)));
    assert!(matches!(table.get_row(&key(1)), Some(RowOp::Delete(r)) if *r == row(10)));
}

#[test]
fn an_insert_after_a_delete_is_an_update() {
    let mut table = MemTable::new();
    assert!(table.delete(key(1), row(10)).is_ok());
    assert!(table.insert(key(1), row(11)).is_ok());
    match table.get_row(&key(1)) {
        Some(RowOp::Update((old, new))) => {
            assert_eq!(*old, row(10));
            assert_eq!(*new, row(11));
        }
        other => panic!("{:?}", other),
    }
    assert!(table.delete(key(1), row(11)).is_ok());
    assert!(matches!(table.get_row(&key(1)), Some(RowOp::Delete(r)) if *r == row(10)));
}

#[test]
fn a_delete_takes_a_buffered_row_back() {
    let mut table = MemTable::new();
    assert!(table.insert(key(1), row(10)).is_ok());
    assert!(table.delete(key(1), row(10)).is_ok());
    assert!(table.get_row(&key(1)).is_none());
    assert!(table.into_parts().is_empty());
}

#[test]
fn operations_come_in_the_order_of_their_keys() {
    let mut table = MemTable::default();
    for k in [5u8, 1, 9, 3, 7] {
        assert!(table.insert(key(k), row(k as i64)).is_ok());
    }
    let copy = table.clone();
    let parts = table.into_parts();
    let order: Vec<u8> = parts.iter().map(|(k, _)| k[0]).collect();
    assert_eq!(order, vec![1, 3, 5, 7, 9]);
    assert_eq!(copy.into_parts().len(), 5);
}

#[test]
fn ranges_of_operations() {
    let mut table = MemTable::new();
    for k in [1u8, 3, 5, 7] {
        assert!(table.insert(key(k), row(k as i64)).is_ok());
    }
    assert_eq!(
        keys(&table, Bound::Unbounded, Bound::Unbounded),
        vec![key(1), key(3), key(5), key(7)]
    );
    assert_eq!(keys(&table, Bound::Included(key(3)), Bound::Included(key(5))), vec![key(3), key(5)]);
    assert_eq!(keys(&table, Bound::Excluded(key(3)), Bound::Excluded(key(7))), vec![key(5)]);
    assert_eq!(keys(&table, Bound::Included(key(2)), Bound::Excluded(key(3))), Vec::<Vec<u8>>::new());
    assert_eq!(keys(&table, Bound::Excluded(key(5)), Bound::Unbounded), vec![key(7)]);
    assert_eq!(keys(&table, Bound::Unbounded, Bound::Included(key(4))), vec![key(1), key(3)]);
    assert_eq!(keys(&table, Bound::Included(key(5)), Bound::Excluded(key(5))), Vec::<Vec<u8>>::new());
}
