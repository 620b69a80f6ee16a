use managed_state::catalog::DataType;
use managed_state::row::{Row, ScalarImpl};

fn text(value: &str) -> Option<ScalarImpl> {
    Some(ScalarImpl::Encoded(DataType::Varchar, value.as_bytes().to_vec()))
}

#[test]
fn rows_are_equal_by_their_values() {
    let a = Row::new(vec![Some(ScalarImpl::Int64(1)), None, text("x")]);
    let b = Row::new(vec![Some(ScalarImpl::Int64(1)), None, text("x")]);
    assert_eq!(a, b);
    assert_eq!(a.clone(), b);
    assert_ne!(a, Row::new(vec![Some(ScalarImpl::Int64(1)), None, text("y")]));
    assert_ne!(a, Row::new(vec![Some(ScalarImpl::Int64(1)), text(""), text("x")]));
    assert_ne!(a, Row::new(vec![Some(ScalarImpl::Int64(1)), None]));
    let other_type = Some(ScalarImpl::Encoded(DataType::Date, b"x".to_vec()));
    assert_ne!(a, Row::new(vec![Some(ScalarImpl::Int64(1)), None, other_type]));
}

#[test]
fn columns_are_picked_by_index() {
    let row = Row::new(vec![Some(ScalarImpl::Int64(1)), None, text("x")]);
    assert_eq!(row.size(), 3);
    assert_eq!(
        row.by_indices(&[2, 0, 2]),
        Row::new(vec![text("x"), Some(ScalarImpl::Int64(1)), text("x")])
    );
    assert_eq!(row.by_indices(&[]), Row::new(Vec::new()));
}
