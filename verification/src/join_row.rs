//! A row of one side of a join, with the number of rows of the other side that it matches.

use vstd::prelude::*;
use std::ops::Index;
use crate::error::{RwError, RwResult};
use crate::row::{indices_within, project, Datum, Row, RowView, ScalarImpl, ScalarView};

verus! {

/// The number of matches of a row.
pub type DegreeType = i64;

/// A row with its match degree.
#[derive(Debug)]
pub struct JoinRow {
    pub row: Row,
    degree: DegreeType,
}

/// The mathematical value of a [`JoinRow`].
pub struct JoinRowView {
    pub row: RowView,
    pub degree: i64,
}

/// The row with its degree as the last column.
pub open spec fn with_degree(join_row: JoinRowView) -> RowView {
    join_row.row.push(Some(ScalarView::Int64(join_row.degree)))
}

/// The last column holds a degree.
pub open spec fn ends_in_degree(row: RowView) -> bool {
    row.len() > 0 && row.last() matches Some(ScalarView::Int64(_))
}

/// The row and the degree that its last column holds.
pub open spec fn split_degree(row: RowView) -> JoinRowView {
    JoinRowView { row: row.drop_last(), degree: row.last()->Some_0->Int64_0 }
}

/// A row that was written with its degree is read back with it.
pub proof fn lemma_split_undoes_with(join_row: JoinRowView)
    ensures
        ends_in_degree(with_degree(join_row)),
        split_degree(with_degree(join_row)) == join_row,
{
    assert(with_degree(join_row).drop_last() =~= join_row.row);
}

/// A row whose last column is a degree is written as it was read.
pub proof fn lemma_with_undoes_split(row: RowView)
    requires
        ends_in_degree(row),
    ensures
        with_degree(split_degree(row)) == row,
{
    assert(with_degree(split_degree(row)) =~= row);
}

/// The row with one match more.
pub open spec fn one_more(join_row: JoinRowView) -> JoinRowView {
    JoinRowView { degree: (join_row.degree + 1) as i64, ..join_row }
}

/// The row with one match less.
pub open spec fn one_less(join_row: JoinRowView) -> JoinRowView {
    JoinRowView { degree: (join_row.degree - 1) as i64, ..join_row }
}

/// A match that is counted and then taken back leaves the row as it was: of a row with a degree
/// that is a count, taking it back is not refused.
pub proof fn lemma_one_less_undoes_one_more(join_row: JoinRowView)
    requires
        0 <= join_row.degree < i64::MAX,
    ensures
        one_more(join_row).degree != 0,
        one_less(one_more(join_row)) == join_row,
{
}

impl View for JoinRow {
    type V = JoinRowView;

    closed spec fn view(&self) -> JoinRowView {
        JoinRowView { row: self.row@, degree: self.degree }
    }
}

impl Index<usize> for JoinRow {
    type Output = Datum;

    fn index(&self, index: usize) -> (datum: &Datum)
        ensures
            datum.deep_view() == self@.row[index as int],
    {
        assert(self@.row[index as int] == self.row.0@[index as int].deep_view());
        &self.row.0[index]
    }
}

impl vstd::std_specs::core::IndexSpecImpl<usize> for JoinRow {
    open spec fn index_req(&self, index: &usize) -> bool {
        *index < self@.row.len()
    }
}

impl JoinRow {
    /// What is said of a row and its degree holds of the fields: callers may read the row there.
    proof fn lemma_view_is_the_fields(&self)
        ensures
            self@.row == self.row@,
            self@.degree == self.degree,
    {
    }

    /// A row that matches `degree` rows.
    pub fn new(row: Row, degree: DegreeType) -> (join_row: Self)
        ensures
            join_row@ == (JoinRowView { row: row@, degree }),
    {
        JoinRow { row, degree }
    }

    /// The number of columns of the row.
    pub fn size(&self) -> (size: usize)
        ensures
            size == self@.row.len(),
    {
        self.row.size()
    }

    /// Whether no row matches.
    pub fn is_zero_degree(&self) -> (zero: bool)
        ensures
            zero == (self@.degree == 0),
    {
        self.degree == 0
    }

    /// Counts one more match, and tells how many there are now.
    pub fn inc_degree(&mut self) -> (degree: DegreeType)
        requires
            old(self)@.degree < i64::MAX,
        ensures
            final(self)@ == one_more(old(self)@),
            final(self)@.degree == old(self)@.degree + 1,
            final(self)@.row == old(self)@.row,
            degree == old(self)@.degree + 1,
    {
        self.degree = self.degree + 1;
        self.degree
    }

    /// Counts one match less, and tells how many there are now. Below zero there is none.
    pub fn dec_degree(&mut self) -> (result: RwResult<DegreeType>)
        requires
            old(self)@.degree > i64::MIN,
        ensures
            match result {
                Ok(degree) => {
                    &&& old(self)@.degree != 0
                    &&& degree == old(self)@.degree - 1
                    &&& final(self)@ == one_less(old(self)@)
                    &&& final(self)@.degree == old(self)@.degree - 1
                    &&& final(self)@.row == old(self)@.row
                },
                Err(error) => {
                    &&& old(self)@.degree == 0
                    &&& error matches RwError::InternalError(message) && message@
                        == "Tried to decrement zero join row degree"@
                    &&& *final(self) == *old(self)
                },
            },
    {
        if self.degree == 0 {
            return Err(
                RwError::InternalError("Tried to decrement zero join row degree".to_string()),
            );
        }
        self.degree = self.degree - 1;
        Ok(self.degree)
    }

    /// The columns of the row at `indices`.
    pub fn row_by_indices(&self, indices: &[usize]) -> (row: Row)
        requires
            indices_within(indices@, self@.row.len()),
        ensures
            row@ == project(self@.row, indices@),
    {
        self.row.by_indices(indices)
    }

    /// Makes the degree the last column of the row.
    pub fn into_row(self) -> (row: Row)
        ensures
            row@ == with_degree(self@),
    {
        let mut datums = self.row.0;
        datums.push(Some(ScalarImpl::Int64(self.degree)));
        let row = Row(datums);
        assert(row@ =~= with_degree(self@));
        row
    }

    /// Takes the last column of the row as its degree.
    pub fn from_row(row: Row) -> (join_row: Self)
        requires
            ends_in_degree(row@),
        ensures
            join_row@ == split_degree(row@),
    {
        let ghost whole = row@;
        let mut datums = row.0;
        assert(whole.last() == datums@.last().deep_view());
        let last = datums.pop().unwrap();
        let degree: DegreeType = match last {
            Some(ScalarImpl::Int64(degree)) => degree,
            _ => {
                assert(false);
                0
            },
        };
        let join_row = JoinRow { row: Row(datums), degree };
        assert(join_row@.row =~= whole.drop_last());
        join_row
    }
}

impl Clone for JoinRow {
    fn clone(&self) -> (copy: Self)
        ensures
            copy@ == self@,
    {
        JoinRow { row: self.row.clone(), degree: self.degree }
    }
}

/// A new row has the columns and the degree that it was made of; it is without a match exactly where
/// the degree is zero.
pub proof fn lemma_new_keeps_row_and_degree(
    row: Row,
    degree: DegreeType,
    join_row: JoinRow,
    zero: bool,
)
    requires
        call_ensures(JoinRow::new, (row, degree), join_row),
        call_ensures(JoinRow::is_zero_degree, (&join_row,), zero),
    ensures
        join_row@.row == row@,
        join_row@.degree == degree,
        zero <==> degree == 0,
{
}

/// Counting a match makes the degree that the row holds larger by one, tells that degree, and
/// leaves the columns alone.
pub proof fn lemma_inc_degree_counts_one(join_row: &mut JoinRow, degree: DegreeType)
    requires
        call_ensures(JoinRow::inc_degree, (join_row,), degree),
    ensures
        final(join_row)@.degree == old(join_row)@.degree + 1,
        degree == final(join_row)@.degree,
        final(join_row)@.row == old(join_row)@.row,
{
}

/// Taking a match back makes the degree that the row holds smaller by one and tells that degree,
/// unless it is zero: then, and only then, it is refused, and the degree stays. The columns are left
/// alone either way.
pub proof fn lemma_dec_degree_takes_one_back(
    join_row: &mut JoinRow,
    result: RwResult<DegreeType>,
)
    requires
        call_ensures(JoinRow::dec_degree, (join_row,), result),
    ensures
        result is Err <==> old(join_row)@.degree == 0,
        result matches Ok(degree) ==> {
            &&& final(join_row)@.degree == old(join_row)@.degree - 1
            &&& degree == final(join_row)@.degree
        },
        result is Err ==> final(join_row)@.degree == old(join_row)@.degree,
        final(join_row)@.row == old(join_row)@.row,
{
}

/// A match that is counted and then taken back leaves the row as it was, and both calls tell the
/// degrees that the row went through.
pub proof fn lemma_dec_degree_undoes_inc_degree(
    before: &mut JoinRow,
    counted: &mut JoinRow,
    degree: DegreeType,
    result: RwResult<DegreeType>,
)
    requires
        call_ensures(JoinRow::inc_degree, (before,), degree),
        *old(counted) == *final(before),
        call_ensures(JoinRow::dec_degree, (counted,), result),
        old(before)@.degree != -1,
    ensures
        degree == old(before)@.degree + 1,
        result matches Ok(again) && again == old(before)@.degree,
        final(counted)@.degree == old(before)@.degree,
        final(counted)@.row == old(before)@.row,
{
}

/// The row that is written has the columns of the row and, behind them, its degree.
pub proof fn lemma_into_row_appends_degree(join_row: JoinRow, row: Row)
    requires
        call_ensures(JoinRow::into_row, (join_row,), row),
    ensures
        row@.len() == join_row@.row.len() + 1,
        forall|i: int| 0 <= i < join_row@.row.len() ==> #[trigger] row@[i] == join_row@.row[i],
        row@[join_row@.row.len() as int] == Some(ScalarView::Int64(join_row@.degree)),
{
}

/// Any row that ends in a number can be read: the number is its degree, and the columns before it
/// are its columns.
pub proof fn lemma_from_row_takes_degree(row: Row, degree: i64, join_row: JoinRow)
    requires
        row@.len() > 0,
        row@[row@.len() - 1] == Some(ScalarView::Int64(degree)),
    ensures
        call_requires(JoinRow::from_row, (row,)),
        call_ensures(JoinRow::from_row, (row,), join_row) ==> {
            &&& join_row@.degree == degree
            &&& join_row@.row.len() == row@.len() - 1
            &&& forall|i: int|
                0 <= i < join_row@.row.len() ==> #[trigger] join_row@.row[i] == row@[i]
        },
{
}

/// A row that was written with its degree can be read, and is read back with it.
pub proof fn lemma_from_row_undoes_into_row(written: JoinRow, row: Row, read: JoinRow)
    requires
        call_ensures(JoinRow::into_row, (written,), row),
    ensures
        call_requires(JoinRow::from_row, (row,)),
        call_ensures(JoinRow::from_row, (row,), read) ==> {
            &&& read@.row == written@.row
            &&& read@.degree == written@.degree
        },
{
    lemma_split_undoes_with(written@);
}

/// A copy has the columns and the degree of the row.
pub proof fn lemma_clone_keeps_row_and_degree(join_row: JoinRow, copy: JoinRow)
    requires
        call_ensures(<JoinRow as Clone>::clone, (&join_row,), copy),
    ensures
        copy@.row == join_row@.row,
        copy@.degree == join_row@.degree,
{
}

/// The columns of a row are picked as those of any row, without its degree.
pub proof fn lemma_row_by_indices_picks_columns(
    join_row: JoinRow,
    indices: &[usize],
    picked: Row,
)
    ensures
        (forall|i: int|
            0 <= i < indices@.len() ==> (#[trigger] indices@[i]) < join_row@.row.len())
            ==> call_requires(JoinRow::row_by_indices, (&join_row, indices)),
        call_ensures(JoinRow::row_by_indices, (&join_row, indices), picked) ==> {
            &&& picked@.len() == indices@.len()
            &&& forall|i: int|
                0 <= i < indices@.len() ==> #[trigger] picked@[i] == join_row@.row[indices@[i] as int]
        },
{
}

/// Each column of a row can be read by its index, and what is read is the value that it holds.
pub proof fn lemma_index_reads_the_column(join_row: JoinRow, index: usize, datum: &Datum)
    ensures
        index < join_row@.row.len() ==> call_requires(
            <JoinRow as Index<usize>>::index,
            (&join_row, index),
        ),
        call_ensures(<JoinRow as Index<usize>>::index, (&join_row, index), datum) ==> match datum {
            None => join_row@.row[index as int] is None,
            Some(ScalarImpl::Int64(value)) => join_row@.row[index as int] == Some(
                ScalarView::Int64(*value),
            ),
            Some(ScalarImpl::Encoded(data_type, bytes)) => join_row@.row[index as int] == Some(
                ScalarView::Encoded(*data_type, bytes@),
            ),
        },
{
}

} // verus!
