//! How a table's columns are described.

use vstd::prelude::*;

verus! {

/// The type of the values in a column.
#[derive(Clone, Copy, Debug, PartialEq, Eq, Structural)]
pub enum DataType {
    Boolean,
    Int16,
    Int32,
    Int64,
    Float32,
    Float64,
    Decimal,
    Date,
    Varchar,
    Time,
    Timestamp,
    Timestampz,
    Interval,
}

/// The number by which a column is known.
#[derive(Clone, Copy, Debug, PartialEq, Eq, Structural)]
pub struct ColumnId(pub i32);

/// A column: its number and its type.
#[derive(Clone, Copy, Debug, PartialEq, Eq, Structural)]
pub struct ColumnDesc {
    pub column_id: ColumnId,
    pub data_type: DataType,
}

impl ColumnDesc {
    /// A column without a name.
    pub fn unnamed(column_id: ColumnId, data_type: DataType) -> (desc: ColumnDesc)
        ensures
            desc == (ColumnDesc { column_id, data_type }),
    {
        ColumnDesc { column_id, data_type }
    }
}

/// The columns by which the cells of a stored row are put back into place.
#[derive(Debug, PartialEq, Eq)]
pub struct ColumnDescMapping {
    pub column_descs: Vec<ColumnDesc>,
}

/// A copy of a list of columns.
pub fn copy_column_descs(descs: &Vec<ColumnDesc>) -> (copy: Vec<ColumnDesc>)
    ensures
        copy@ == descs@,
{
    let mut copy: Vec<ColumnDesc> = Vec::new();
    let mut i: usize = 0;
    while i < descs.len()
        invariant
            i <= descs@.len(),
            copy@ == descs@.take(i as int),
        decreases descs@.len() - i,
    {
        copy.push(descs[i]);
        assert(copy@ =~= descs@.take(i + 1));
        i = i + 1;
    }
    assert(copy@ =~= descs@);
    copy
}

/// The direction in which a column of a key is ordered.
#[derive(Clone, Copy, Debug, PartialEq, Eq, Structural)]
pub enum OrderType {
    Ascending,
    Descending,
}

/// How a key row becomes the bytes of a key: the direction of each of its columns.
#[derive(Debug, PartialEq, Eq)]
pub struct OrderedRowSerializer {
    pub order_types: Vec<OrderType>,
}

impl OrderedRowSerializer {
    pub fn new(order_types: Vec<OrderType>) -> (serializer: Self)
        ensures
            serializer.order_types == order_types,
    {
        OrderedRowSerializer { order_types }
    }
}

impl Clone for OrderedRowSerializer {
    fn clone(&self) -> (copy: Self)
        ensures
            copy.order_types@ == self.order_types@,
    {
        let mut order_types: Vec<OrderType> = Vec::new();
        let mut i: usize = 0;
        while i < self.order_types.len()
            invariant
                i <= self.order_types@.len(),
                order_types@ == self.order_types@.take(i as int),
            decreases self.order_types@.len() - i,
        {
            order_types.push(self.order_types[i]);
            assert(order_types@ =~= self.order_types@.take(i + 1));
            i = i + 1;
        }
        assert(order_types@ =~= self.order_types@);
        OrderedRowSerializer { order_types }
    }
}

} // verus!
