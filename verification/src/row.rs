//! Rows and the values in their columns.

use vstd::prelude::*;
use crate::catalog::DataType;
use crate::key::{compare_keys, copy_key, KeyOrder};

verus! {

/// A value that is not null. Integers of eight bytes are held as such; a value of any other type
/// is held in its encoding.
#[derive(Debug)]
pub enum ScalarImpl {
    Int64(i64),
    Encoded(DataType, Vec<u8>),
}

/// The mathematical value of a [`ScalarImpl`].
pub enum ScalarView {
    Int64(i64),
    Encoded(DataType, Seq<u8>),
}

/// The value in one column, which may be null.
pub type Datum = Option<ScalarImpl>;

pub type DatumView = Option<ScalarView>;

pub type RowView = Seq<DatumView>;

impl DeepView for ScalarImpl {
    type V = ScalarView;

    open spec fn deep_view(&self) -> ScalarView {
        match self {
            ScalarImpl::Int64(value) => ScalarView::Int64(*value),
            ScalarImpl::Encoded(data_type, bytes) => ScalarView::Encoded(*data_type, bytes@),
        }
    }
}

impl PartialEq for ScalarImpl {
    fn eq(&self, other: &Self) -> (equal: bool) {
        match (self, other) {
            (ScalarImpl::Int64(a), ScalarImpl::Int64(b)) => *a == *b,
            (ScalarImpl::Encoded(t, a), ScalarImpl::Encoded(u, b)) => *t == *u && compare_keys(a, b)
                == KeyOrder::Equal,
            _ => false,
        }
    }
}

impl vstd::std_specs::cmp::PartialEqSpecImpl for ScalarImpl {
    open spec fn obeys_eq_spec() -> bool {
        true
    }

    open spec fn eq_spec(&self, other: &Self) -> bool {
        self.deep_view() == other.deep_view()
    }
}

impl Clone for ScalarImpl {
    fn clone(&self) -> (copy: Self)
        ensures
            copy.deep_view() == self.deep_view(),
    {
        match self {
            ScalarImpl::Int64(value) => ScalarImpl::Int64(*value),
            ScalarImpl::Encoded(data_type, bytes) => ScalarImpl::Encoded(
                *data_type,
                copy_key(bytes),
            ),
        }
    }
}

/// A copy of the value in a column.
pub fn copy_datum(datum: &Datum) -> (copy: Datum)
    ensures
        copy.deep_view() == datum.deep_view(),
{
    match datum {
        Some(scalar) => Some(scalar.clone()),
        None => None,
    }
}

/// Whether two columns hold the same value.
pub fn same_datum(a: &Datum, b: &Datum) -> (same: bool)
    ensures
        same == (a.deep_view() == b.deep_view()),
{
    match (a, b) {
        (Some(a), Some(b)) => *a == *b,
        (None, None) => true,
        _ => false,
    }
}

/// A row: one value for each column.
#[derive(Debug)]
pub struct Row(pub Vec<Datum>);

impl View for Row {
    type V = RowView;

    open spec fn view(&self) -> RowView {
        self.0.deep_view()
    }
}

impl DeepView for Row {
    type V = RowView;

    open spec fn deep_view(&self) -> RowView {
        self.0.deep_view()
    }
}

/// Every index is that of a column of a row of `len` columns.
pub open spec fn indices_within(indices: Seq<usize>, len: nat) -> bool {
    forall|i: int| 0 <= i < indices.len() ==> (#[trigger] indices[i]) < len
}

/// The columns of `row` at `indices`, in the order of `indices`.
pub open spec fn project(row: RowView, indices: Seq<usize>) -> RowView {
    Seq::new(indices.len(), |i: int| row[indices[i] as int])
}

impl Row {
    /// A row of these values.
    pub fn new(datums: Vec<Datum>) -> (row: Row)
        ensures
            row.0 == datums,
            row@ == datums.deep_view(),
    {
        Row(datums)
    }

    /// The number of columns.
    pub fn size(&self) -> (size: usize)
        ensures
            size == self@.len(),
    {
        self.0.len()
    }

    /// The row of the columns at `indices`.
    pub fn by_indices(&self, indices: &[usize]) -> (row: Row)
        requires
            indices_within(indices@, self@.len()),
        ensures
            row@ == project(self@, indices@),
    {
        let mut datums: Vec<Datum> = Vec::new();
        let mut i: usize = 0;
        while i < indices.len()
            invariant
                indices_within(indices@, self@.len()),
                i <= indices@.len(),
                datums.deep_view() == project(self@, indices@).take(i as int),
            decreases indices@.len() - i,
        {
            let datum = copy_datum(&self.0[indices[i]]);
            assert(datum.deep_view() == self@[indices@[i as int] as int]);
            let ghost pushed = datums.deep_view().push(datum.deep_view());
            datums.push(datum);
            assert(datums.deep_view() =~= pushed);
            assert(datums.deep_view() =~= project(self@, indices@).take(i + 1));
            i = i + 1;
        }
        assert(datums.deep_view() =~= project(self@, indices@));
        Row(datums)
    }
}

impl Clone for Row {
    fn clone(&self) -> (copy: Self)
        ensures
            copy@ == self@,
    {
        let mut datums: Vec<Datum> = Vec::new();
        let mut i: usize = 0;
        while i < self.0.len()
            invariant
                i <= self@.len(),
                self@.len() == self.0@.len(),
                datums.deep_view() == self@.take(i as int),
            decreases self@.len() - i,
        {
            let datum = copy_datum(&self.0[i]);
            let ghost pushed = datums.deep_view().push(datum.deep_view());
            datums.push(datum);
            assert(datums.deep_view() =~= pushed);
            assert(datums.deep_view() =~= self@.take(i + 1));
            i = i + 1;
        }
        assert(datums.deep_view() =~= self@);
        Row(datums)
    }
}

impl PartialEq for Row {
    fn eq(&self, other: &Self) -> (equal: bool) {
        if self.0.len() != other.0.len() {
            return false;
        }
        let mut i: usize = 0;
        while i < self.0.len()
            invariant
                i <= self@.len(),
                self@.len() == self.0@.len(),
                other@.len() == other.0@.len(),
                self@.len() == other@.len(),
                self@.take(i as int) == other@.take(i as int),
            decreases self@.len() - i,
        {
            if !same_datum(&self.0[i], &other.0[i]) {
                assert(self@[i as int] != other@[i as int]);
                return false;
            }
            assert(self@[i as int] == other@[i as int]);
            assert(self@.take(i + 1) =~= self@.take(i as int).push(self@[i as int]));
            assert(other@.take(i + 1) =~= other@.take(i as int).push(other@[i as int]));
            i = i + 1;
        }
        proof {
            assert(self@.take(self@.len() as int) =~= self@);
            assert(other@.take(other@.len() as int) =~= other@);
        }
        true
    }
}

impl vstd::std_specs::cmp::PartialEqSpecImpl for Row {
    open spec fn obeys_eq_spec() -> bool {
        true
    }

    open spec fn eq_spec(&self, other: &Self) -> bool {
        self@ == other@
    }
}

/// A copy of a list of column indices.
pub fn copy_indices(indices: &Vec<usize>) -> (copy: Vec<usize>)
    ensures
        copy@ == indices@,
{
    let mut copy: Vec<usize> = Vec::new();
    let mut i: usize = 0;
    while i < indices.len()
        invariant
            i <= indices@.len(),
            copy@ == indices@.take(i as int),
        decreases indices@.len() - i,
    {
        copy.push(indices[i]);
        assert(copy@ =~= indices@.take(i + 1));
        i = i + 1;
    }
    assert(copy@ =~= indices@);
    copy
}

/// A row has one value for each of its columns, in their order, and each is the value that the
/// column holds: null for null, the same number for a number, and the same bytes of the same type
/// for any other.
pub proof fn lemma_row_is_its_columns(row: Row)
    ensures
        row@.len() == row.0@.len(),
        row.deep_view() == row@,
        forall|i: int|
            0 <= i < row.0@.len() ==> match #[trigger] row.0@[i] {
                None => row@[i] is None,
                Some(ScalarImpl::Int64(value)) => row@[i] == Some(ScalarView::Int64(value)),
                Some(ScalarImpl::Encoded(data_type, bytes)) => row@[i] == Some(
                    ScalarView::Encoded(data_type, bytes@),
                ),
            },
{
    assert forall|i: int| 0 <= i < row.0@.len() implies match #[trigger] row.0@[i] {
        None => row@[i] is None,
        Some(ScalarImpl::Int64(value)) => row@[i] == Some(ScalarView::Int64(value)),
        Some(ScalarImpl::Encoded(data_type, bytes)) => row@[i] == Some(
            ScalarView::Encoded(data_type, bytes@),
        ),
    } by {
        assert(row@[i] == row.0@[i].deep_view());
    }
}

/// Every column that was asked for is there, in the order of the indices, and no other; and any
/// columns that the row has may be asked for.
pub proof fn lemma_by_indices_picks_columns(row: Row, indices: &[usize], picked: Row)
    ensures
        (forall|i: int| 0 <= i < indices@.len() ==> (#[trigger] indices@[i]) < row@.len())
            ==> call_requires(Row::by_indices, (&row, indices)),
        call_ensures(Row::by_indices, (&row, indices), picked) ==> {
            &&& picked@.len() == indices@.len()
            &&& forall|i: int|
                0 <= i < indices@.len() ==> #[trigger] picked@[i] == row@[indices@[i] as int]
        },
{
}

/// Two rows are equal where they have the same columns, and only there.
pub proof fn lemma_rows_are_equal_by_columns(a: Row, b: Row, equal: bool)
    requires
        call_ensures(<Row as PartialEq>::eq, (&a, &b), equal),
    ensures
        equal <==> a@.len() == b@.len() && forall|i: int|
            0 <= i < a@.len() ==> #[trigger] a@[i] == b@[i],
{
    if a@.len() == b@.len() && forall|i: int| 0 <= i < a@.len() ==> #[trigger] a@[i] == b@[i] {
        assert(a@ =~= b@);
    }
}

} // verus!
