//! The writes of the current epoch, kept in memory until they are committed.

use vstd::prelude::*;
use crate::entries::{
    lemma_insert, lemma_remove, lemma_sorted_distinct, lemma_subrange, lemma_to_map, lemma_update,
    lookup, place_of, sorted, to_map, within,
};
use crate::error::{RwError, RwResult};
use crate::key::{
    admits, before_end, compare_keys, copy_key, in_order, key_lt, lemma_key_lt_asymmetric,
    lemma_key_lt_irreflexive, lemma_key_lt_transitive, past_start, Bound, KeyOrder,
};
use crate::row::{Row, RowView};

verus! {

/// What is to become of a row when the buffer is committed.
#[derive(Debug)]
pub enum RowOp {
    /// A new row.
    Insert(Row),
    /// The stored row goes.
    Delete(Row),
    /// The stored row, the first of the two, gives way to the second.
    Update((Row, Row)),
}

/// The mathematical value of a [`RowOp`].
pub enum RowOpView {
    Insert(RowView),
    Delete(RowView),
    Update(RowView, RowView),
}

impl DeepView for RowOp {
    type V = RowOpView;

    open spec fn deep_view(&self) -> RowOpView {
        match self {
            RowOp::Insert(row) => RowOpView::Insert(row@),
            RowOp::Delete(row) => RowOpView::Delete(row@),
            RowOp::Update(rows) => RowOpView::Update(rows.0@, rows.1@),
        }
    }
}

impl RowOpView {
    /// The row that stands after the operation, if one does.
    pub open spec fn row_after(self) -> Option<RowView> {
        match self {
            RowOpView::Insert(row) => Some(row),
            RowOpView::Delete(_) => None,
            RowOpView::Update(_, row) => Some(row),
        }
    }
}

impl RowOp {
    /// The row that stands after the operation, if one does.
    pub fn row_after(&self) -> (row: Option<&Row>)
        ensures
            match row {
                Some(row) => self.deep_view().row_after() == Some(row@),
                None => self.deep_view().row_after() is None,
            },
    {
        match self {
            RowOp::Insert(row) => Some(row),
            RowOp::Delete(_) => None,
            RowOp::Update(rows) => Some(&rows.1),
        }
    }
}

impl Clone for RowOp {
    fn clone(&self) -> (copy: Self)
        ensures
            copy.deep_view() == self.deep_view(),
    {
        match self {
            RowOp::Insert(row) => RowOp::Insert(row.clone()),
            RowOp::Delete(row) => RowOp::Delete(row.clone()),
            RowOp::Update(rows) => RowOp::Update((rows.0.clone(), rows.1.clone())),
        }
    }
}

/// The operations with their keys.
pub open spec fn op_entries(ops: Seq<(Vec<u8>, RowOp)>) -> Seq<(Seq<u8>, RowOpView)> {
    Seq::new(ops.len(), |i: int| (ops[i].0@, ops[i].1.deep_view()))
}

/// The rows that are left of `stored` once `ops` are carried out.
pub open spec fn overlay(
    stored: Map<Seq<u8>, RowView>,
    ops: Map<Seq<u8>, RowOpView>,
) -> Map<Seq<u8>, RowView> {
    Map::new(
        |key: Seq<u8>|
            if ops.contains_key(key) {
                ops[key].row_after() is Some
            } else {
                stored.contains_key(key)
            },
        |key: Seq<u8>|
            if ops.contains_key(key) {
                ops[key].row_after().unwrap()
            } else {
                stored[key]
            },
    )
}

/// The operations fit what is stored: only rows that are not there are inserted, and a row that is
/// deleted or updated is there as the operation says.
pub open spec fn fits(
    stored: Map<Seq<u8>, RowView>,
    ops: Map<Seq<u8>, RowOpView>,
) -> bool {
    forall|key: Seq<u8>| #[trigger]
        ops.contains_key(key) ==> match ops[key] {
            RowOpView::Insert(_) => !stored.contains_key(key),
            RowOpView::Delete(row) => stored.contains_key(key) && stored[key] == row,
            RowOpView::Update(row, _) => stored.contains_key(key) && stored[key] == row,
        }
}

/// Every row that an update replaces is stored as the update says.
pub open spec fn updates_stored(
    stored: Map<Seq<u8>, RowView>,
    ops: Map<Seq<u8>, RowOpView>,
) -> bool {
    forall|key: Seq<u8>| #[trigger]
        ops.contains_key(key) ==> (ops[key] matches RowOpView::Update(row, _)
            ==> stored.contains_key(key) && stored[key] == row)
}

/// Operations that fit what is stored update only stored rows, and still do after any insert and
/// any delete.
pub proof fn lemma_fit_stores_updates(
    stored: Map<Seq<u8>, RowView>,
    ops: Map<Seq<u8>, RowOpView>,
    key: Seq<u8>,
    row: RowView,
)
    requires
        fits(stored, ops),
    ensures
        updates_stored(stored, ops),
        updates_stored(stored, inserted(ops, key, row)),
        updates_stored(stored, deleted(ops, key, row)),
{
}

/// A row cannot be inserted under a key under which the buffer already has a row.
pub open spec fn insert_refused(ops: Map<Seq<u8>, RowOpView>, key: Seq<u8>) -> bool {
    lookup(ops, key) matches Some(op) && op.row_after() is Some
}

/// The buffer after a row was inserted. A row whose stored version the buffer deletes becomes an
/// update of it.
pub open spec fn inserted(
    ops: Map<Seq<u8>, RowOpView>,
    key: Seq<u8>,
    row: RowView,
) -> Map<Seq<u8>, RowOpView> {
    match lookup(ops, key) {
        Some(RowOpView::Delete(stored)) => ops.insert(key, RowOpView::Update(stored, row)),
        _ => ops.insert(key, RowOpView::Insert(row)),
    }
}

/// A row cannot be deleted twice.
pub open spec fn delete_refused(ops: Map<Seq<u8>, RowOpView>, key: Seq<u8>) -> bool {
    lookup(ops, key) matches Some(op) && op.row_after() is None
}

/// The buffer after a row was deleted. A row that the buffer itself put there is forgotten; one
/// that it put in the place of a stored row leaves the deletion of the stored row.
pub open spec fn deleted(
    ops: Map<Seq<u8>, RowOpView>,
    key: Seq<u8>,
    row: RowView,
) -> Map<Seq<u8>, RowOpView> {
    match lookup(ops, key) {
        Some(RowOpView::Insert(_)) => ops.remove(key),
        Some(RowOpView::Update(stored, _)) => ops.insert(key, RowOpView::Delete(stored)),
        _ => ops.insert(key, RowOpView::Delete(row)),
    }
}

/// What stands under a key is decided by the operation on it, and by storage where there is none.
pub proof fn lemma_lookup_overlay(
    stored: Map<Seq<u8>, RowView>,
    ops: Map<Seq<u8>, RowOpView>,
    key: Seq<u8>,
)
    ensures
        lookup(overlay(stored, ops), key) == match lookup(ops, key) {
            Some(op) => op.row_after(),
            None => lookup(stored, key),
        },
{
}

/// An inserted row can be read at once, and no other row changes, whatever is stored.
pub proof fn lemma_insert_shows(
    stored: Map<Seq<u8>, RowView>,
    ops: Map<Seq<u8>, RowOpView>,
    key: Seq<u8>,
    row: RowView,
)
    requires
        !insert_refused(ops, key),
    ensures
        overlay(stored, inserted(ops, key, row)) == overlay(stored, ops).insert(key, row),
{
    assert(overlay(stored, inserted(ops, key, row)) =~= overlay(stored, ops).insert(key, row));
}

/// A deleted row is gone at once, and no other row changes. Where the buffer inserted the row, none
/// may be stored under its key.
pub proof fn lemma_delete_hides(
    stored: Map<Seq<u8>, RowView>,
    ops: Map<Seq<u8>, RowOpView>,
    key: Seq<u8>,
    row: RowView,
)
    requires
        !delete_refused(ops, key),
        ops.contains_key(key) && ops[key] is Insert ==> !stored.contains_key(key),
    ensures
        overlay(stored, deleted(ops, key, row)) == overlay(stored, ops).remove(key),
{
    assert(overlay(stored, deleted(ops, key, row)) =~= overlay(stored, ops).remove(key));
}

/// Inserting a row under a key under which none can be read is never refused, and the operations
/// still fit what is stored.
pub proof fn lemma_insert_keeps_fit(
    stored: Map<Seq<u8>, RowView>,
    ops: Map<Seq<u8>, RowOpView>,
    key: Seq<u8>,
    row: RowView,
)
    requires
        fits(stored, ops),
        !overlay(stored, ops).contains_key(key),
    ensures
        !insert_refused(ops, key),
        fits(stored, inserted(ops, key, row)),
{
}

/// Deleting a row as it can be read is never refused, and the operations still fit what is stored.
pub proof fn lemma_delete_keeps_fit(
    stored: Map<Seq<u8>, RowView>,
    ops: Map<Seq<u8>, RowOpView>,
    key: Seq<u8>,
    row: RowView,
)
    requires
        fits(stored, ops),
        overlay(stored, ops).contains_pair(key, row),
    ensures
        !delete_refused(ops, key),
        fits(stored, deleted(ops, key, row)),
{
}

/// Deleting a row that was inserted before puts the buffer back as it was.
pub proof fn lemma_delete_undoes_insert(
    ops: Map<Seq<u8>, RowOpView>,
    key: Seq<u8>,
    row: RowView,
)
    requires
        !insert_refused(ops, key),
    ensures
        !delete_refused(inserted(ops, key, row), key),
        deleted(inserted(ops, key, row), key, row) == ops,
{
    assert(deleted(inserted(ops, key, row), key, row) =~= ops);
}

/// Carrying out the buffer on storage and emptying it changes no row that can be read, and the
/// empty buffer fits whatever is stored.
pub proof fn lemma_commit_changes_no_row(
    stored: Map<Seq<u8>, RowView>,
    ops: Map<Seq<u8>, RowOpView>,
)
    ensures
        overlay(overlay(stored, ops), Map::<Seq<u8>, RowOpView>::empty()) == overlay(stored, ops),
        fits(overlay(stored, ops), Map::<Seq<u8>, RowOpView>::empty()),
{
    assert(overlay(overlay(stored, ops), Map::<Seq<u8>, RowOpView>::empty()) =~= overlay(
        stored,
        ops,
    ));
}

/// The operations of the current epoch, at most one for each key.
#[derive(Debug)]
pub struct MemTable {
    buffer: Vec<(Vec<u8>, RowOp)>,
}

impl View for MemTable {
    type V = Map<Seq<u8>, RowOpView>;

    open spec fn view(&self) -> Map<Seq<u8>, RowOpView> {
        to_map(self.entries())
    }
}

impl MemTable {
    /// The operations in the order of their keys.
    pub closed spec fn entries(&self) -> Seq<(Seq<u8>, RowOpView)> {
        op_entries(self.buffer@)
    }

    /// The keys ascend, and none occurs twice.
    pub open spec fn wf(&self) -> bool {
        sorted(self.entries())
    }

    /// A buffer without operations.
    pub fn new() -> (table: Self)
        ensures
            table.wf(),
            table.entries() == Seq::<(Seq<u8>, RowOpView)>::empty(),
            table@ == Map::<Seq<u8>, RowOpView>::empty(),
    {
        let table = MemTable { buffer: Vec::new() };
        assert(table.entries() =~= Seq::<(Seq<u8>, RowOpView)>::empty());
        assert(table@ =~= Map::<Seq<u8>, RowOpView>::empty());
        table
    }

    /// The place of `key`, or the place where it belongs.
    fn locate(&self, key: &[u8]) -> (found: (bool, usize))
        requires
            self.wf(),
        ensures
            found.1 <= self.entries().len(),
            forall|i: int| 0 <= i < found.1 ==> key_lt(#[trigger] self.entries()[i].0, key@),
            found.0 ==> found.1 < self.entries().len() && self.entries()[found.1 as int].0 == key@,
            !found.0 ==> forall|i: int|
                found.1 <= i < self.entries().len() ==> key_lt(
                    key@,
                    #[trigger] self.entries()[i].0,
                ),
    {
        let mut low: usize = 0;
        let mut high: usize = self.buffer.len();
        while low < high
            invariant
                self.wf(),
                low <= high <= self.buffer@.len(),
                self.entries().len() == self.buffer@.len(),
                forall|i: int| 0 <= i < low ==> key_lt(#[trigger] self.entries()[i].0, key@),
                forall|i: int|
                    high <= i < self.entries().len() ==> key_lt(
                        key@,
                        #[trigger] self.entries()[i].0,
                    ),
            decreases high - low,
        {
            let mid: usize = low + (high - low) / 2;
            let ghost at = self.entries()[mid as int].0;
            match compare_keys(&self.buffer[mid].0, key) {
                KeyOrder::Less => {
                    proof {
                        assert forall|i: int| 0 <= i < mid + 1 implies key_lt(
                            #[trigger] self.entries()[i].0,
                            key@,
                        ) by {
                            if i < mid {
                                lemma_key_lt_transitive(self.entries()[i].0, at, key@);
                            }
                        }
                    }
                    low = mid + 1;
                },
                KeyOrder::Equal => {
                    return (true, mid);
                },
                KeyOrder::Greater => {
                    proof {
                        assert forall|i: int| mid <= i < self.entries().len() implies key_lt(
                            key@,
                            #[trigger] self.entries()[i].0,
                        ) by {
                            if mid < i {
                                lemma_key_lt_transitive(key@, at, self.entries()[i].0);
                            }
                        }
                    }
                    high = mid;
                },
            }
        }
        (false, low)
    }

    /// The operation under a key, if there is one.
    pub fn get_row(&self, pk: &[u8]) -> (op: Option<&RowOp>)
        requires
            self.wf(),
        ensures
            match op {
                Some(op) => lookup(self@, pk@) == Some(op.deep_view()),
                None => lookup(self@, pk@) is None,
            },
    {
        let (found, i) = self.locate(pk);
        proof {
            lemma_sorted_distinct(self.entries());
            lemma_to_map(self.entries());
        }
        if found {
            assert(self.entries()[i as int].0 == pk@);
            Some(&self.buffer[i].1)
        } else {
            proof {
                if self@.contains_key(pk@) {
                    lemma_key_lt_irreflexive(pk@);
                    assert(false);
                }
            }
            None
        }
    }

    /// Buffers a new row. A row whose stored version the buffer deletes becomes an update of it.
    /// A key under which the buffer already has a row is refused.
    pub fn insert(&mut self, pk: Vec<u8>, value: Row) -> (result: RwResult<()>)
        requires
            old(self).wf(),
        ensures
            final(self).wf(),
            match result {
                Ok(_) => {
                    &&& !insert_refused(old(self)@, pk@)
                    &&& final(self)@ == inserted(old(self)@, pk@, value@)
                },
                Err(error) => {
                    &&& insert_refused(old(self)@, pk@)
                    &&& error == RwError::DoubleInsert
                    &&& *final(self) == *old(self)
                },
            },
    {
        let ghost before = self.entries();
        proof {
            lemma_sorted_distinct(before);
            lemma_to_map(before);
        }
        let (found, i) = self.locate(&pk);
        if found {
            assert(before[i as int].0 == pk@);
            match &self.buffer[i].1 {
                RowOp::Delete(_) => {},
                _ => {
                    return Err(RwError::DoubleInsert);
                },
            }
            let (key, op) = self.buffer.remove(i);
            let ghost expected = match op.deep_view() {
                RowOpView::Delete(stored) => RowOpView::Update(stored, value@),
                other => other,
            };
            let op = match op {
                RowOp::Delete(stored) => RowOp::Update((stored, value)),
                other => other,
            };
            self.buffer.insert(i, (key, op));
            proof {
                lemma_update(before, i as int, expected);
                assert(self.entries() =~= before.update(i as int, (before[i as int].0, expected)));
            }
            Ok(())
        } else {
            proof {
                lemma_insert(before, i as int, pk@, RowOpView::Insert(value@));
            }
            let ghost expected = before.insert(i as int, (pk@, RowOpView::Insert(value@)));
            self.buffer.insert(i, (pk, RowOp::Insert(value)));
            assert(self.entries() =~= expected);
            Ok(())
        }
    }

    /// Buffers the deletion of a row. A row that the buffer itself put there is forgotten; one that
    /// it put in the place of a stored row leaves the deletion of the stored row. A key that the
    /// buffer already deletes is refused.
    pub fn delete(&mut self, pk: Vec<u8>, old_value: Row) -> (result: RwResult<()>)
        requires
            old(self).wf(),
        ensures
            final(self).wf(),
            match result {
                Ok(_) => {
                    &&& !delete_refused(old(self)@, pk@)
                    &&& final(self)@ == deleted(old(self)@, pk@, old_value@)
                },
                Err(error) => {
                    &&& delete_refused(old(self)@, pk@)
                    &&& error == RwError::DoubleDelete
                    &&& *final(self) == *old(self)
                },
            },
    {
        let ghost before = self.entries();
        proof {
            lemma_sorted_distinct(before);
            lemma_to_map(before);
        }
        let (found, i) = self.locate(&pk);
        if found {
            assert(before[i as int].0 == pk@);
            match &self.buffer[i].1 {
                RowOp::Delete(_) => {
                    return Err(RwError::DoubleDelete);
                },
                _ => {},
            }
            let (key, op) = self.buffer.remove(i);
            proof {
                lemma_remove(before, i as int);
                assert(self.entries() =~= before.remove(i as int));
            }
            match op {
                RowOp::Update((stored, _)) => {
                    let ghost expected = RowOpView::Delete(stored@);
                    self.buffer.insert(i, (key, RowOp::Delete(stored)));
                    proof {
                        lemma_update(before, i as int, expected);
                        assert(self.entries() =~= before.update(
                            i as int,
                            (before[i as int].0, expected),
                        ));
                    }
                },
                _ => {},
            }
            Ok(())
        } else {
            proof {
                lemma_insert(before, i as int, pk@, RowOpView::Delete(old_value@));
            }
            let ghost expected = before.insert(i as int, (pk@, RowOpView::Delete(old_value@)));
            self.buffer.insert(i, (pk, RowOp::Delete(old_value)));
            assert(self.entries() =~= expected);
            Ok(())
        }
    }

    /// The operations, in the order of their keys.
    pub fn into_parts(self) -> (ops: Vec<(Vec<u8>, RowOp)>)
        ensures
            op_entries(ops@) == self.entries(),
    {
        self.buffer
    }

    /// The number of operations that lie before the start of a range.
    fn count_before_start(&self, start: &Bound<Vec<u8>>) -> (count: usize)
        requires
            self.wf(),
        ensures
            count <= self.entries().len(),
            forall|i: int|
                0 <= i < self.entries().len() ==> (count <= i <==> past_start(
                    start@,
                    #[trigger] self.entries()[i].0,
                )),
    {
        match start {
            Bound::Unbounded => 0,
            Bound::Included(key) => {
                let (found, i) = self.locate(key);
                proof {
                    self.lemma_around(key@, found, i as int);
                }
                i
            },
            Bound::Excluded(key) => {
                let (found, i) = self.locate(key);
                proof {
                    self.lemma_around(key@, found, i as int);
                }
                if found {
                    assert(i < self.buffer.len());
                    i + 1
                } else {
                    i
                }
            },
        }
    }

    /// The number of operations that do not lie beyond the end of a range.
    fn count_before_end(&self, end: &Bound<Vec<u8>>) -> (count: usize)
        requires
            self.wf(),
        ensures
            count <= self.entries().len(),
            forall|i: int|
                0 <= i < self.entries().len() ==> (i < count <==> before_end(
                    end@,
                    #[trigger] self.entries()[i].0,
                )),
    {
        match end {
            Bound::Unbounded => self.buffer.len(),
            Bound::Included(key) => {
                let (found, i) = self.locate(key);
                proof {
                    self.lemma_around(key@, found, i as int);
                }
                if found {
                    assert(i < self.buffer.len());
                    i + 1
                } else {
                    i
                }
            },
            Bound::Excluded(key) => {
                let (found, i) = self.locate(key);
                proof {
                    self.lemma_around(key@, found, i as int);
                }
                i
            },
        }
    }

    /// The keys before a located place come before the key, those from it on do not.
    proof fn lemma_around(&self, key: Seq<u8>, found: bool, place: int)
        requires
            self.wf(),
            0 <= place <= self.entries().len(),
            forall|i: int| 0 <= i < place ==> key_lt(#[trigger] self.entries()[i].0, key),
            found ==> place < self.entries().len() && self.entries()[place].0 == key,
            !found ==> forall|i: int|
                place <= i < self.entries().len() ==> key_lt(key, #[trigger] self.entries()[i].0),
        ensures
            forall|i: int|
                0 <= i < self.entries().len() ==> {
                    let at = #[trigger] self.entries()[i].0;
                    &&& key_lt(at, key) <==> i < place
                    &&& at == key <==> found && i == place
                    &&& key_lt(key, at) <==> place <= i && !(found && i == place)
                },
    {
        lemma_key_lt_irreflexive(key);
        assert forall|i: int| 0 <= i < self.entries().len() implies {
            let at = #[trigger] self.entries()[i].0;
            &&& key_lt(at, key) <==> i < place
            &&& at == key <==> found && i == place
            &&& key_lt(key, at) <==> place <= i && !(found && i == place)
        } by {
            let at = self.entries()[i].0;
            if found && i > place {
                assert(key_lt(self.entries()[place].0, self.entries()[i].0));
            }
            if i < place {
                lemma_key_lt_asymmetric(at, key);
            } else if !(found && i == place) {
                lemma_key_lt_asymmetric(key, at);
            }
        }
    }

    /// The operations whose keys lie in a range, in the order of their keys.
    pub fn range(&self, start: &Bound<Vec<u8>>, end: &Bound<Vec<u8>>) -> (range: MemTableRange<'_>)
        requires
            self.wf(),
            in_order((start@, end@)),
        ensures
            range.wf(),
            sorted(range.rest()),
            to_map(range.rest()) == within(self@, (start@, end@)),
    {
        let from = self.count_before_start(start);
        let to = self.count_before_end(end);
        let to = if to < from {
            from
        } else {
            to
        };
        let range = MemTableRange { buffer: &self.buffer, from, to };
        proof {
            assert(range.rest() =~= self.entries().subrange(from as int, to as int));
            assert forall|i: int| 0 <= i < self.entries().len() implies (from <= i < to <==> admits(
                (start@, end@),
                #[trigger] self.entries()[i].0,
            )) by {}
            lemma_subrange(self.entries(), from as int, to as int, (start@, end@));
        }
        range
    }
}

impl Default for MemTable {
    fn default() -> (table: Self)
        ensures
            table.wf(),
            table@ == Map::<Seq<u8>, RowOpView>::empty(),
    {
        MemTable::new()
    }
}

impl Clone for MemTable {
    fn clone(&self) -> (copy: Self)
        ensures
            copy.entries() == self.entries(),
    {
        let mut buffer: Vec<(Vec<u8>, RowOp)> = Vec::new();
        let mut i: usize = 0;
        while i < self.buffer.len()
            invariant
                i <= self.buffer@.len(),
                op_entries(buffer@) == op_entries(self.buffer@).take(i as int),
            decreases self.buffer@.len() - i,
        {
            let entry = &self.buffer[i];
            let copy = (copy_key(&entry.0), entry.1.clone());
            let ghost pushed = op_entries(buffer@).push((copy.0@, copy.1.deep_view()));
            buffer.push(copy);
            assert(op_entries(buffer@) =~= pushed);
            assert(pushed =~= op_entries(self.buffer@).take(i + 1));
            i = i + 1;
        }
        assert(op_entries(buffer@) =~= op_entries(self.buffer@));
        MemTable { buffer }
    }
}

/// A walk over the operations in a range.
#[derive(Debug)]
pub struct MemTableRange<'a> {
    buffer: &'a Vec<(Vec<u8>, RowOp)>,
    from: usize,
    to: usize,
}

impl<'a> MemTableRange<'a> {
    pub closed spec fn wf(&self) -> bool {
        self.from <= self.to <= self.buffer@.len()
    }

    /// The operations that are still to come.
    pub closed spec fn rest(&self) -> Seq<(Seq<u8>, RowOpView)> {
        op_entries(self.buffer@.subrange(self.from as int, self.to as int))
    }

    /// The next operation, which stays where it is.
    pub fn peek(&self) -> (entry: Option<&'a (Vec<u8>, RowOp)>)
        requires
            self.wf(),
        ensures
            match entry {
                Some(entry) => {
                    &&& self.rest().len() > 0
                    &&& self.rest()[0] == (entry.0@, entry.1.deep_view())
                },
                None => self.rest().len() == 0,
            },
    {
        if self.from < self.to {
            Some(&self.buffer[self.from])
        } else {
            None
        }
    }

    /// Steps over the next operation.
    pub fn skip_one(&mut self)
        requires
            old(self).wf(),
            old(self).rest().len() > 0,
        ensures
            final(self).wf(),
            final(self).rest() == old(self).rest().skip(1),
    {
        self.from = self.from + 1;
        assert(self.rest() =~= old(self).rest().skip(1));
    }
}

/// An operation is read as it stands: what kind it is, and its rows.
pub proof fn lemma_operation_is_its_rows(op: RowOp)
    ensures
        match op {
            RowOp::Insert(row) => op.deep_view() == RowOpView::Insert(row@),
            RowOp::Delete(row) => op.deep_view() == RowOpView::Delete(row@),
            RowOp::Update(rows) => op.deep_view() == RowOpView::Update(rows.0@, rows.1@),
        },
{
}

/// What an operation leaves behind: an insert its row, an update the new of its two rows, and a
/// delete nothing. A copy of the operation is the same operation.
pub proof fn lemma_operation_leaves_its_row(op: RowOp, row: Option<&Row>, copy: RowOp)
    requires
        call_ensures(RowOp::row_after, (&op,), row),
        call_ensures(<RowOp as Clone>::clone, (&op,), copy),
    ensures
        match op {
            RowOp::Insert(new) => row matches Some(left) && left@ == new@,
            RowOp::Delete(_) => row is None,
            RowOp::Update(rows) => row matches Some(left) && left@ == rows.1@,
        },
        match op {
            RowOp::Insert(new) => copy matches RowOp::Insert(same) && same@ == new@,
            RowOp::Delete(old_row) => copy matches RowOp::Delete(same) && same@ == old_row@,
            RowOp::Update(rows) => copy matches RowOp::Update(same) && same.0@ == rows.0@ && same.1@
                == rows.1@,
        },
{
}

/// The rows that stand once operations are carried out: under a key with an insert or an update the
/// new row, under one with a delete none, and under any other what is stored.
pub proof fn lemma_carried_out_operation_by_operation(
    stored: Map<Seq<u8>, RowView>,
    ops: Map<Seq<u8>, RowOpView>,
    key: Seq<u8>,
    row: RowView,
)
    ensures
        overlay(stored, ops).contains_pair(key, row) <==> if ops.contains_key(key) {
            match ops[key] {
                RowOpView::Insert(new) => new == row,
                RowOpView::Delete(_) => false,
                RowOpView::Update(_, new) => new == row,
            }
        } else {
            stored.contains_key(key) && stored[key] == row
        },
        overlay(stored, ops).contains_key(key) <==> if ops.contains_key(key) {
            !(ops[key] is Delete)
        } else {
            stored.contains_key(key)
        },
{
}

/// Looking a key up finds the operation that is buffered under it, and none where there is none.
pub proof fn lemma_get_row_finds_the_operation(
    table: MemTable,
    pk: &[u8],
    op: Option<&RowOp>,
)
    requires
        call_ensures(MemTable::get_row, (&table, pk), op),
    ensures
        match op {
            Some(op) => table@.contains_pair(pk@, op.deep_view()),
            None => !table@.contains_key(pk@),
        },
{
}

/// A row can be buffered under every key but one under which a row is buffered: where nothing is
/// buffered, as an insert; where the deletion of a stored row is, as an update of that row. No other
/// key is touched, and a refused row changes nothing.
pub proof fn lemma_insert_buffers_the_row(
    table: &mut MemTable,
    pk: Vec<u8>,
    value: Row,
    result: RwResult<()>,
)
    requires
        call_ensures(MemTable::insert, (table, pk, value), result),
    ensures
        !old(table)@.contains_key(pk@) ==> {
            &&& result is Ok
            &&& final(table)@ == old(table)@.insert(pk@, RowOpView::Insert(value@))
        },
        old(table)@.contains_key(pk@) ==> match old(table)@[pk@] {
            RowOpView::Delete(stored) => {
                &&& result is Ok
                &&& final(table)@ == old(table)@.insert(pk@, RowOpView::Update(stored, value@))
            },
            _ => {
                &&& result == Err::<(), RwError>(RwError::DoubleInsert)
                &&& final(table)@ == old(table)@
            },
        },
{
}

/// The deletion of a row can be buffered under every key but one under which a deletion is: where
/// nothing is buffered, as the deletion of the row; where an insert is, nothing is left of it; and
/// where an update of a stored row is, the deletion of the stored row is left. No other key is
/// touched, and a refused deletion changes nothing.
pub proof fn lemma_delete_buffers_the_deletion(
    table: &mut MemTable,
    pk: Vec<u8>,
    old_value: Row,
    result: RwResult<()>,
)
    requires
        call_ensures(MemTable::delete, (table, pk, old_value), result),
    ensures
        !old(table)@.contains_key(pk@) ==> {
            &&& result is Ok
            &&& final(table)@ == old(table)@.insert(pk@, RowOpView::Delete(old_value@))
        },
        old(table)@.contains_key(pk@) ==> match old(table)@[pk@] {
            RowOpView::Insert(_) => {
                &&& result is Ok
                &&& final(table)@ == old(table)@.remove(pk@)
            },
            RowOpView::Update(stored, _) => {
                &&& result is Ok
                &&& final(table)@ == old(table)@.insert(pk@, RowOpView::Delete(stored))
            },
            RowOpView::Delete(_) => {
                &&& result == Err::<(), RwError>(RwError::DoubleDelete)
                &&& final(table)@ == old(table)@
            },
        },
{
}

/// The operations are handed over one for each key that has one, in the order of their keys.
pub proof fn lemma_parts_are_the_operations(
    table: MemTable,
    ops: Vec<(Vec<u8>, RowOp)>,
    key: Seq<u8>,
    op: RowOpView,
)
    requires
        table.wf(),
        call_ensures(MemTable::into_parts, (table,), ops),
    ensures
        forall|i: int, j: int|
            0 <= i < j < ops@.len() ==> key_lt(#[trigger] ops@[i].0@, #[trigger] ops@[j].0@),
        table@.contains_pair(key, op) <==> exists|i: int|
            0 <= i < ops@.len() && #[trigger] ops@[i].0@ == key && ops@[i].1.deep_view() == op,
{
    lemma_listed_operations(ops@, key, op);
}

/// Operations that are listed in the order of their keys, one by one.
pub proof fn lemma_listed_operations(
    ops: Seq<(Vec<u8>, RowOp)>,
    key: Seq<u8>,
    op: RowOpView,
)
    requires
        sorted(op_entries(ops)),
    ensures
        forall|i: int, j: int|
            0 <= i < j < ops.len() ==> key_lt(#[trigger] ops[i].0@, #[trigger] ops[j].0@),
        to_map(op_entries(ops)).contains_pair(key, op) <==> exists|i: int|
            0 <= i < ops.len() && #[trigger] ops[i].0@ == key && ops[i].1.deep_view() == op,
{
    let entries = op_entries(ops);
    assert forall|i: int, j: int| 0 <= i < j < ops.len() implies key_lt(
        #[trigger] ops[i].0@,
        #[trigger] ops[j].0@,
    ) by {
        assert(key_lt(entries[i].0, entries[j].0));
    }
    lemma_sorted_distinct(entries);
    lemma_to_map(entries);
    if to_map(entries).contains_pair(key, op) {
        let i = place_of(entries, key);
        assert(ops[i].0@ == key);
    }
    if exists|i: int|
        0 <= i < ops.len() && #[trigger] ops[i].0@ == key && ops[i].1.deep_view() == op {
        let i = choose|i: int|
            0 <= i < ops.len() && #[trigger] ops[i].0@ == key && ops[i].1.deep_view() == op;
        assert(entries[i] == (key, op));
        assert(to_map(entries).contains_key(entries[i].0));
    }
}

/// A walk over a range comes by the operations whose keys lie in the range, and no others, in the
/// order of their keys.
pub proof fn lemma_range_walks_the_operations<'a>(
    table: &'a MemTable,
    start: &Bound<Vec<u8>>,
    end: &Bound<Vec<u8>>,
    range: MemTableRange<'a>,
    key: Seq<u8>,
    op: RowOpView,
)
    requires
        call_ensures(MemTable::range, (table, start, end), range),
    ensures
        forall|i: int, j: int|
            0 <= i < j < range.rest().len() ==> key_lt(
                #[trigger] range.rest()[i].0,
                #[trigger] range.rest()[j].0,
            ),
        range.rest().contains((key, op)) <==> table@.contains_pair(key, op) && admits(
            (start@, end@),
            key,
        ),
{
    let rest = range.rest();
    lemma_sorted_distinct(rest);
    lemma_to_map(rest);
    if rest.contains((key, op)) {
        let i = choose|i: int| 0 <= i < rest.len() && rest[i] == (key, op);
        assert(to_map(rest).contains_key(rest[i].0));
    }
    if table@.contains_pair(key, op) && admits((start@, end@), key) {
        assert(to_map(rest).contains_key(key));
        assert(rest[place_of(rest, key)] == (key, op));
    }
}

/// A walk shows the next of its operations, steps over that one, and is at its end where it shows
/// none.
pub proof fn lemma_walk_goes_one_by_one<'a>(
    range: &mut MemTableRange<'a>,
    entry: Option<&'a (Vec<u8>, RowOp)>,
)
    requires
        call_ensures(MemTableRange::<'a>::peek, (&*old(range),), entry),
        call_ensures(MemTableRange::<'a>::skip_one, (range,), ()),
    ensures
        entry is None <==> old(range).rest().len() == 0,
        entry matches Some(entry) ==> old(range).rest()[0] == (entry.0@, entry.1.deep_view()),
        old(range).rest().len() > 0 ==> final(range).rest().len() == old(range).rest().len() - 1,
        forall|i: int|
            0 <= i < old(range).rest().len() - 1 ==> #[trigger] final(range).rest()[i] == old(
                range,
            ).rest()[i + 1],
{
}

} // verus!
