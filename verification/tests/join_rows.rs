use managed_state::error::RwError;
use managed_state::join_entry_state::JoinEntryState;
use managed_state::join_row::JoinRow;
use managed_state::row::{Row, ScalarImpl};

fn int_row(values: &[i64]) -> Row {
    Row::new(values.iter().map(|v| Some(ScalarImpl::Int64(*v))).collect())
}

#[test]
fn degrees_are_counted() {
    let mut join_row = JoinRow::new(int_row(&[7, 8]), 0);
    assert!(join_row.is_zero_degree());
    assert_eq!(join_row.inc_degree(), 1);
    assert_eq!(join_row.inc_degree(), 2);
    assert!(!join_row.is_zero_degree());
    assert_eq!(join_row.dec_degree().unwrap(), 1);
    assert_eq!(join_row.dec_degree().unwrap(), 0);
    assert!(join_row.is_zero_degree());
}

#[test]
fn a_degree_of_zero_cannot_be_decremented() {
    let mut join_row = JoinRow::new(int_row(&[7]), 0);
    match join_row.dec_degree() {
        Err(RwError::InternalError(message)) => {
            assert_eq!(message, "Tried to decrement zero join row degree");
        }
        other => panic!("{:?}", other),
    }
    assert!(join_row.is_zero_degree());
}

#[test]
fn a_degree_below_zero_goes_on_down() {
    let mut join_row = JoinRow::new(int_row(&[7]), -3);
    assert_eq!(join_row.dec_degree().unwrap(), -4);
}

#[test]
fn the_degree_is_the_last_column() {
    let join_row = JoinRow::new(int_row(&[7, 8]), 5);
    assert_eq!(join_row.size(), 2);
    assert_eq!(join_row.clone().into_row(), int_row(&[7, 8, 5]));
    let mut back = JoinRow::from_row(join_row.into_row());
    assert_eq!(back.row, int_row(&[7, 8]));
    assert_eq!(back.inc_degree(), 6);
}

#[test]
fn columns_of_a_join_row() {
    let join_row = JoinRow::new(int_row(&[7, 8, 9]), 5);
    assert_eq!(join_row[1], Some(ScalarImpl::Int64(8)));
    assert_eq!(join_row.row_by_indices(&[2, 0]), int_row(&[9, 7]));
}

#[test]
fn an_entry_is_a_map_by_primary_key() {
    let mut entry = JoinEntryState::new();
    assert!(entry.get(&int_row(&[1])).is_none());
    entry.insert(int_row(&[1]), JoinRow::new(int_row(&[1, 10]), 0));
    entry.insert(int_row(&[2]), JoinRow::new(int_row(&[2, 20]), 0));
    entry.insert(int_row(&[1]), JoinRow::new(int_row(&[1, 11]), 0));
    assert_eq!(entry.get(&int_row(&[1])).unwrap().row, int_row(&[1, 11]));
    assert_eq!(entry.get(&int_row(&[2])).unwrap().row, int_row(&[2, 20]));
    entry.remove(int_row(&[1]));
    entry.remove(int_row(&[3]));
    assert!(entry.get(&int_row(&[1])).is_none());
    assert!(entry.get(&int_row(&[2])).is_some());
}
