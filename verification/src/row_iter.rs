//! The scan of a state table: a walk over storage and the buffer side by side.

use vstd::prelude::*;
use std::sync::Arc;
use crate::catalog::ColumnDescMapping;
use crate::entries::{holds_key, reversed, values_of};
use crate::error::{StorageError, StorageResult};
use crate::key::{
    compare_keys, key_lt, key_order, lemma_key_lt_irreflexive, Bound, KeyOrder, Keyspace,
};
use crate::mem_table::{MemTableRange, RowOpView};
use crate::merge::{
    delivered, failure, lemma_delivered_item_by_item, lemma_nothing_to_meet,
    lemma_streamed_rows_by_key, lemma_streamed_rows_come_from_items,
    lemma_updates_with_rows_are_met, merged, row_of, streams, updates_met,
};
use crate::row::{Row, RowView};

verus! {

/// What a scan does next.
#[derive(Debug)]
pub enum MergeStep<'a> {
    /// Nothing is left.
    Done,
    /// The next item of storage is taken: its row is yielded, its error ends the scan.
    TakeStored,
    /// A buffered row is yielded; where `with_stored` holds, the next item of storage, which has
    /// the same key, is dropped.
    Yield { row: &'a Row, with_stored: bool },
    /// Nothing is yielded; where `with_stored` holds, the next item of storage, which has the same
    /// key, is dropped.
    Skip { with_stored: bool },
}

impl<'a> MergeStep<'a> {
    /// The step carries out a buffered operation.
    pub open spec fn carries_out(self, op: RowOpView, with_stored: bool) -> bool {
        match op.row_after() {
            Some(row) => self matches MergeStep::Yield { row: yielded, with_stored: with } && {
                &&& yielded@ == row
                &&& with == with_stored
            },
            None => self == (MergeStep::Skip { with_stored }),
        }
    }
}

/// A scan over the rows of storage and the operations of the buffer. It reads the rows that have
/// just been written, before they are committed.
pub struct StateTableRowIter<'a, S> {
    pub keyspace: &'a Keyspace<S>,
    pub table_descs: Arc<ColumnDescMapping>,
    pub mem_table_iter: MemTableRange<'a>,
    pub cell_based_bounds: (Bound<Vec<u8>>, Bound<Vec<u8>>),
    pub epoch: u64,
}

impl<'a, S> StateTableRowIter<'a, S> {
    pub open spec fn wf(&self) -> bool {
        self.mem_table_iter.wf()
    }

    /// The buffered operations that are still to come.
    pub open spec fn rest(&self) -> Seq<(Seq<u8>, RowOpView)> {
        self.mem_table_iter.rest()
    }

    /// The range of storage that is scanned.
    pub open spec fn bounds(&self) -> (Bound<Seq<u8>>, Bound<Seq<u8>>) {
        (self.cell_based_bounds.0@, self.cell_based_bounds.1@)
    }

    /// The two scans read storage alike.
    pub open spec fn same_scan(&self, other: &Self) -> bool {
        &&& self.keyspace == other.keyspace
        &&& self.table_descs == other.table_descs
        &&& self.cell_based_bounds == other.cell_based_bounds
        &&& self.epoch == other.epoch
    }

    /// A scan of the keyspace within `cell_based_bounds` as of `epoch`, merged with the operations
    /// of `mem_table_iter`.
    pub fn new(
        keyspace: &'a Keyspace<S>,
        table_descs: Arc<ColumnDescMapping>,
        mem_table_iter: MemTableRange<'a>,
        cell_based_bounds: (Bound<Vec<u8>>, Bound<Vec<u8>>),
        epoch: u64,
    ) -> (iter: Self)
        ensures
            iter.keyspace == keyspace,
            iter.table_descs == table_descs,
            iter.mem_table_iter == mem_table_iter,
            iter.cell_based_bounds == cell_based_bounds,
            iter.epoch == epoch,
    {
        StateTableRowIter { keyspace, table_descs, mem_table_iter, cell_based_bounds, epoch }
    }

    /// No update is next in the buffer whose key comes before that of the next row of storage.
    pub open spec fn may_step(&self, head: Option<&StorageResult<(Vec<u8>, Row)>>) -> bool {
        head matches Some(Ok(item)) ==> self.rest().len() > 0 ==> !(key_lt(
            self.rest()[0].0,
            item.0@,
        ) && self.rest()[0].1 is Update)
    }

    /// Decides what the scan does when `head` is the next item of storage.
    ///
    /// The lesser of the two keys goes first. Where storage and the buffer have the same key, the
    /// operation decides what becomes of the row, and both move on. An error of storage is thrown
    /// as soon as it is met.
    pub fn next_step(&mut self, head: Option<&StorageResult<(Vec<u8>, Row)>>) -> (step: MergeStep<
        'a,
    >)
        requires
            old(self).wf(),
            old(self).may_step(head),
        ensures
            final(self).wf(),
            final(self).same_scan(old(self)),
            old(self).rest().len() == 0 ==> {
                &&& head is None ==> step == MergeStep::<'a>::Done
                &&& head is Some ==> step == MergeStep::<'a>::TakeStored
                &&& final(self).rest() == old(self).rest()
            },
            old(self).rest().len() > 0 ==> {
                let (key, op) = old(self).rest()[0];
                match head {
                    None => {
                        &&& step.carries_out(op, false)
                        &&& final(self).rest() == old(self).rest().skip(1)
                    },
                    Some(Err(_)) => {
                        &&& step == MergeStep::<'a>::TakeStored
                        &&& final(self).rest() == old(self).rest()
                    },
                    Some(Ok(item)) => match key_order(item.0@, key) {
                        KeyOrder::Less => {
                            &&& step == MergeStep::<'a>::TakeStored
                            &&& final(self).rest() == old(self).rest()
                        },
                        KeyOrder::Equal => {
                            &&& step.carries_out(op, true)
                            &&& final(self).rest() == old(self).rest().skip(1)
                        },
                        KeyOrder::Greater => {
                            &&& step.carries_out(op, false)
                            &&& final(self).rest() == old(self).rest().skip(1)
                        },
                    },
                }
            },
    {
        match self.mem_table_iter.peek() {
            None => match head {
                None => MergeStep::Done,
                Some(_) => MergeStep::TakeStored,
            },
            Some(entry) => {
                let with_stored = match head {
                    None => false,
                    Some(Err(_)) => {
                        return MergeStep::TakeStored;
                    },
                    Some(Ok(item)) => match compare_keys(&item.0, &entry.0) {
                        KeyOrder::Less => {
                            return MergeStep::TakeStored;
                        },
                        KeyOrder::Equal => true,
                        KeyOrder::Greater => false,
                    },
                };
                self.mem_table_iter.skip_one();
                match entry.1.row_after() {
                    Some(row) => MergeStep::Yield { row, with_stored },
                    None => MergeStep::Skip { with_stored },
                }
            },
        }
    }

    /// The items that the scan yields over all that storage delivers: the merged rows, and then the
    /// error with which storage failed, if it did.
    pub fn into_stream(self, cell_based_items: Vec<StorageResult<(Vec<u8>, Row)>>) -> (stream: Vec<
        StorageResult<Row>,
    >)
        requires
            self.wf(),
            updates_met(delivered(cell_based_items@), self.rest()),
        ensures
            streams(
                stream@,
                values_of(
                    merged(
                        delivered(cell_based_items@),
                        self.rest(),
                        failure(cell_based_items@) is Some,
                    ),
                ),
                failure(cell_based_items@),
            ),
    {
        let ghost error = failure(cell_based_items@);
        let ghost all = merged(delivered(cell_based_items@), self.rest(), error is Some);
        let ghost mut left = cell_based_items@;
        let ghost mut done = Seq::<(Seq<u8>, RowView)>::empty();
        let mut iter = self;
        let mut stack = reversed(cell_based_items);
        let mut stream: Vec<StorageResult<Row>> = Vec::new();
        assert(done + all =~= all);
        loop
            invariant
                iter.wf(),
                stack@ == left.reverse(),
                failure(left) == error,
                updates_met(delivered(left), iter.rest()),
                all == done + merged(delivered(left), iter.rest(), error is Some),
                streams(stream@, values_of(done), None),
                error == failure(cell_based_items@),
                all == merged(delivered(cell_based_items@), self.rest(), error is Some),
            ensures
                error is None,
                all == done,
                streams(stream@, values_of(done), None),
            decreases left.len() + iter.rest().len(),
        {
            let ghost rest = iter.rest();
            let ghost stored = delivered(left);
            proof {
                if left.len() > 0 {
                    assert(stack@[stack@.len() - 1] == left[0]);
                    if left[0] is Ok {
                        assert(stored[0] == (left[0]->Ok_0.0@, left[0]->Ok_0.1@));
                        assert(stored.skip(1) =~= delivered(left.skip(1)));
                    }
                }
            }
            let head = if stack.len() > 0 {
                Some(&stack[stack.len() - 1])
            } else {
                None
            };
            let step = iter.next_step(head);
            match step {
                MergeStep::Done => {
                    assert(all =~= done);
                    break ;
                },
                MergeStep::TakeStored => {
                    match stack.pop() {
                        Some(Ok(item)) => {
                            let ghost now = done.push((item.0@, item.1@));
                            let (_, row) = item;
                            stream.push(Ok(row));
                            proof {
                                assert(stack@ =~= left.skip(1).reverse());
                                assert(values_of(now) =~= values_of(done).push(row@));
                                assert(done + (seq![stored[0]] + merged(
                                    stored.skip(1),
                                    rest,
                                    error is Some,
                                )) =~= now + merged(stored.skip(1), rest, error is Some));
                                done = now;
                                left = left.skip(1);
                            }
                        },
                        Some(Err(thrown)) => {
                            stream.push(Err(thrown));
                            assert(all =~= done);
                            return stream;
                        },
                        None => {},
                    }
                },
                MergeStep::Yield { row, with_stored } => {
                    let ghost now = done.push((rest[0].0, row@));
                    let copy = row.clone();
                    stream.push(Ok(copy));
                    proof {
                        assert(values_of(now) =~= values_of(done).push(row@));
                        assert(row_of(rest[0]) == seq![(rest[0].0, row@)]);
                        let next = if with_stored { stored.skip(1) } else { stored };
                        assert(done + (row_of(rest[0]) + merged(next, rest.skip(1), error is Some))
                            =~= now + merged(next, rest.skip(1), error is Some));
                        done = now;
                    }
                    if with_stored {
                        let _ = stack.pop();
                        proof {
                            assert(stack@ =~= left.skip(1).reverse());
                            left = left.skip(1);
                        }
                    }
                },
                MergeStep::Skip { with_stored } => {
                    proof {
                        let next = if with_stored { stored.skip(1) } else { stored };
                        assert(row_of(rest[0]) + merged(next, rest.skip(1), error is Some)
                            =~= merged(next, rest.skip(1), error is Some));
                    }
                    if with_stored {
                        let _ = stack.pop();
                        proof {
                            assert(stack@ =~= left.skip(1).reverse());
                            left = left.skip(1);
                        }
                    }
                },
            }
        }
        stream
    }
}

/// One step of a scan. Where storage is next, because the buffer is done, or storage fails, or its
/// key comes first, its item is taken and the buffer waits. Otherwise the next operation of the
/// buffer is carried out: the row of an insert and the new row of an update are yielded, a delete
/// yields nothing, and the stored row of the same key goes with it. Where neither has anything left,
/// the scan is done. What is scanned stays the same.
pub proof fn lemma_step_by_step<'a, S>(
    iter: &mut StateTableRowIter<'a, S>,
    head: Option<&StorageResult<(Vec<u8>, Row)>>,
    step: MergeStep<'a>,
)
    requires
        call_ensures(StateTableRowIter::<'a, S>::next_step, (iter, head), step),
    ensures
        final(iter).keyspace == old(iter).keyspace,
        final(iter).table_descs == old(iter).table_descs,
        final(iter).cell_based_bounds == old(iter).cell_based_bounds,
        final(iter).epoch == old(iter).epoch,
        head is None && old(iter).rest().len() == 0 ==> {
            &&& step is Done
            &&& final(iter).rest() == old(iter).rest()
        },
        head is Some && (old(iter).rest().len() == 0 || head->Some_0 is Err || key_lt(
            head->Some_0->Ok_0.0@,
            old(iter).rest()[0].0,
        )) ==> {
            &&& step is TakeStored
            &&& final(iter).rest() == old(iter).rest()
        },
        old(iter).rest().len() > 0 && (head is None || (head->Some_0 is Ok && !key_lt(
            head->Some_0->Ok_0.0@,
            old(iter).rest()[0].0,
        ))) ==> {
            &&& final(iter).rest() == old(iter).rest().skip(1)
            &&& match old(iter).rest()[0].1 {
                RowOpView::Insert(new) => step matches MergeStep::Yield { row, with_stored } && row@
                    == new && with_stored == (head is Some && head->Some_0->Ok_0.0@ == old(
                    iter,
                ).rest()[0].0),
                RowOpView::Update(_, new) => step matches MergeStep::Yield { row, with_stored }
                    && row@ == new && with_stored == (head is Some && head->Some_0->Ok_0.0@ == old(
                    iter,
                ).rest()[0].0),
                RowOpView::Delete(_) => step matches MergeStep::Skip { with_stored } && with_stored
                    == (head is Some && head->Some_0->Ok_0.0@ == old(iter).rest()[0].0),
            }
        },
{
    if old(iter).rest().len() > 0 {
        lemma_key_lt_irreflexive(old(iter).rest()[0].0);
    }
}

/// A scan can go one step wherever it stands, unless an update is next whose key comes before that
/// of the next stored row; and it can be run to its end over any items where the buffer updates
/// nothing, and over items with ascending keys where a row is delivered for every update.
pub proof fn lemma_scan_can_go_on<S>(
    iter: StateTableRowIter<'_, S>,
    items: Vec<StorageResult<(Vec<u8>, Row)>>,
    n: int,
)
    requires
        iter.wf(),
        0 <= n <= items@.len(),
        forall|i: int| 0 <= i < n ==> #[trigger] items@[i] is Ok,
        n < items@.len() ==> items@[n] is Err,
    ensures
        (forall|i: int| 0 <= i < iter.rest().len() ==> !(#[trigger] iter.rest()[i].1 is Update))
            ==> call_requires(StateTableRowIter::<S>::into_stream, (iter, items)),
        ({
            &&& forall|i: int, j: int|
                0 <= i < j < n ==> key_lt(
                    (#[trigger] items@[i])->Ok_0.0@,
                    (#[trigger] items@[j])->Ok_0.0@,
                )
            &&& forall|i: int, j: int|
                0 <= i < j < iter.rest().len() ==> key_lt(
                    #[trigger] iter.rest()[i].0,
                    #[trigger] iter.rest()[j].0,
                )
            &&& forall|i: int|
                0 <= i < iter.rest().len() && iter.rest()[i].1 is Update ==> exists|j: int|
                    0 <= j < n && (#[trigger] items@[j])->Ok_0.0@ == (#[trigger] iter.rest()[i]).0
        }) ==> call_requires(StateTableRowIter::<S>::into_stream, (iter, items)),
        forall|head: Option<&StorageResult<(Vec<u8>, Row)>>|
            (head is None || head->Some_0 is Err || iter.rest().len() == 0
                || !(iter.rest()[0].1 is Update) || !key_lt(
                iter.rest()[0].0,
                head->Some_0->Ok_0.0@,
            )) ==> #[trigger] iter.may_step(head),
{
    let stored = delivered(items@);
    let ops = iter.rest();
    lemma_delivered_item_by_item(items@, n);
    if forall|i: int| 0 <= i < ops.len() ==> !(#[trigger] ops[i].1 is Update) {
        lemma_nothing_to_meet(stored, ops);
    }
    let with_rows = {
        &&& forall|i: int, j: int|
            0 <= i < j < n ==> key_lt(
                (#[trigger] items@[i])->Ok_0.0@,
                (#[trigger] items@[j])->Ok_0.0@,
            )
        &&& forall|i: int, j: int|
            0 <= i < j < ops.len() ==> key_lt(#[trigger] ops[i].0, #[trigger] ops[j].0)
        &&& forall|i: int|
            0 <= i < ops.len() && ops[i].1 is Update ==> exists|j: int|
                0 <= j < n && (#[trigger] items@[j])->Ok_0.0@ == (#[trigger] ops[i]).0
    };
    if with_rows {
        assert forall|i: int, j: int| 0 <= i < j < stored.len() implies key_lt(
            #[trigger] stored[i].0,
            #[trigger] stored[j].0,
        ) by {
            assert(items@[i] is Ok && items@[j] is Ok);
        }
        assert forall|i: int| 0 <= i < ops.len() && ops[i].1 is Update implies holds_key(
            stored,
            #[trigger] ops[i].0,
        ) by {
            let j = choose|j: int| 0 <= j < n && (#[trigger] items@[j])->Ok_0.0@ == ops[i].0;
            assert(stored[j].0 == ops[i].0);
        }
        lemma_updates_with_rows_are_met(stored, ops);
    }
}

/// A scan yields rows as they were read and as they were written. Every row that it yields is,
/// column for column, the row of an item that storage delivered before it failed, or that of a
/// buffered insert or update. Where nothing is buffered, item by item the rows that storage
/// delivered are yielded, and there are as many. The error with which storage failed comes last, and
/// there is no other.
pub proof fn lemma_scan_yields_rows_as_they_are<S>(
    iter: StateTableRowIter<'_, S>,
    items: Vec<StorageResult<(Vec<u8>, Row)>>,
    stream: Vec<StorageResult<Row>>,
    n: int,
)
    requires
        call_ensures(StateTableRowIter::<S>::into_stream, (iter, items), stream),
        0 <= n <= items@.len(),
        forall|i: int| 0 <= i < n ==> #[trigger] items@[i] is Ok,
        n < items@.len() ==> items@[n] is Err,
    ensures
        n == items@.len() ==> forall|i: int| 0 <= i < stream@.len() ==> #[trigger] stream@[i] is Ok,
        n < items@.len() ==> {
            &&& stream@.len() > 0
            &&& stream@[stream@.len() - 1] == Err::<Row, StorageError>(items@[n]->Err_0)
            &&& forall|i: int| 0 <= i < stream@.len() - 1 ==> #[trigger] stream@[i] is Ok
        },
        forall|i: int|
            0 <= i < stream@.len() && #[trigger] stream@[i] is Ok ==> {
                ||| exists|j: int|
                    0 <= j < n && (#[trigger] items@[j])->Ok_0.1@ == stream@[i]->Ok_0@
                ||| exists|j: int|
                    0 <= j < iter.rest().len() && match (#[trigger] iter.rest()[j]).1 {
                        RowOpView::Insert(new) => new == stream@[i]->Ok_0@,
                        RowOpView::Update(_, new) => new == stream@[i]->Ok_0@,
                        RowOpView::Delete(_) => false,
                    }
            },
        iter.rest().len() == 0 ==> {
            &&& stream@.len() == if n < items@.len() {
                n + 1
            } else {
                n
            }
            &&& forall|i: int|
                0 <= i < n ==> (#[trigger] stream@[i] matches Ok(row) && row@
                    == items@[i]->Ok_0.1@)
        },
{
    lemma_streamed_rows_come_from_items(items@, iter.rest(), stream@, n);
}

/// A scan sees the buffer. Where storage delivers its rows in the order of their keys, the scan
/// yields rows whose keys ascend: `keys`. Under a key with a buffered insert or update it yields
/// that row, under one with a buffered delete none, and under any other the row that storage
/// delivered, and it leaves none of these out. Where storage fails, nothing comes after the key of
/// the last delivered row but the error.
pub proof fn lemma_scan_sees_the_buffer<S>(
    iter: StateTableRowIter<'_, S>,
    items: Vec<StorageResult<(Vec<u8>, Row)>>,
    stream: Vec<StorageResult<Row>>,
    n: int,
) -> (keys: Seq<Seq<u8>>)
    requires
        call_ensures(StateTableRowIter::<S>::into_stream, (iter, items), stream),
        0 <= n <= items@.len(),
        forall|i: int| 0 <= i < n ==> #[trigger] items@[i] is Ok,
        n < items@.len() ==> items@[n] is Err,
        forall|i: int, j: int|
            0 <= i < j < n ==> key_lt(
                (#[trigger] items@[i])->Ok_0.0@,
                (#[trigger] items@[j])->Ok_0.0@,
            ),
        forall|i: int, j: int|
            0 <= i < j < iter.rest().len() ==> key_lt(
                #[trigger] iter.rest()[i].0,
                #[trigger] iter.rest()[j].0,
            ),
    ensures
        stream@.len() == if n < items@.len() {
            keys.len() + 1
        } else {
            keys.len()
        },
        forall|i: int, j: int|
            0 <= i < j < keys.len() ==> key_lt(#[trigger] keys[i], #[trigger] keys[j]),
        forall|i: int|
            #![trigger keys[i]]
            #![trigger stream@[i]]
            0 <= i < keys.len() ==> stream@[i] is Ok && {
                let row = stream@[i]->Ok_0@;
                if exists|op: RowOpView| #[trigger] iter.rest().contains((keys[i], op)) {
                    ||| iter.rest().contains((keys[i], RowOpView::Insert(row)))
                    ||| exists|stored: RowView| #[trigger]
                        iter.rest().contains((keys[i], RowOpView::Update(stored, row)))
                } else {
                    exists|j: int|
                        0 <= j < n && (#[trigger] items@[j])->Ok_0.0@ == keys[i]
                            && items@[j]->Ok_0.1@ == row
                }
            },
        forall|j: int|
            0 <= j < n && (forall|k: int|
                0 <= k < iter.rest().len() ==> #[trigger] iter.rest()[k].0 != items@[j]->Ok_0.0@)
                ==> keys.contains((#[trigger] items@[j])->Ok_0.0@),
        forall|j: int|
            0 <= j < iter.rest().len() && !((#[trigger] iter.rest()[j]).1 is Delete) && (n
                == items@.len() || (n > 0 && !key_lt(items@[n - 1]->Ok_0.0@, iter.rest()[j].0)))
                ==> keys.contains(iter.rest()[j].0),
        n < items@.len() ==> forall|i: int|
            0 <= i < keys.len() ==> n > 0 && !key_lt(items@[n - 1]->Ok_0.0@, #[trigger] keys[i]),
{
    let ops = iter.rest();
    let keys = lemma_streamed_rows_by_key(items@, ops, stream@, n);
    assert forall|i: int|
        #![trigger keys[i]]
        #![trigger stream@[i]]
        0 <= i < keys.len() implies stream@[i] is Ok && {
        let row = stream@[i]->Ok_0@;
        if exists|op: RowOpView| #[trigger] ops.contains((keys[i], op)) {
            ||| ops.contains((keys[i], RowOpView::Insert(row)))
            ||| exists|stored: RowView| #[trigger]
                ops.contains((keys[i], RowOpView::Update(stored, row)))
        } else {
            exists|j: int|
                0 <= j < n && (#[trigger] items@[j])->Ok_0.0@ == keys[i] && items@[j]->Ok_0.1@
                    == row
        }
    } by {
        let key = keys[i];
        let row = stream@[i]->Ok_0@;
        if exists|op: RowOpView| #[trigger] ops.contains((key, op)) {
            let op = choose|op: RowOpView| #[trigger] ops.contains((key, op));
            let k = choose|k: int| 0 <= k < ops.len() && ops[k] == (key, op);
            assert(ops[k].0 == key);
            let j = choose|j: int|
                0 <= j < ops.len() && #[trigger] ops[j].0 == key && match ops[j].1 {
                    RowOpView::Insert(new) => new == row,
                    RowOpView::Update(_, new) => new == row,
                    RowOpView::Delete(_) => false,
                };
            match ops[j].1 {
                RowOpView::Insert(new) => {
                    assert(ops[j] == (key, RowOpView::Insert(row)));
                },
                RowOpView::Update(stored, new) => {
                    assert(ops[j] == (key, RowOpView::Update(stored, row)));
                    assert(ops.contains((key, RowOpView::Update(stored, row))));
                },
                RowOpView::Delete(_) => {},
            }
        } else {
            assert forall|j: int| 0 <= j < ops.len() implies #[trigger] ops[j].0 != key by {
                if ops[j].0 == key {
                    assert(ops.contains((key, ops[j].1)));
                }
            }
        }
    }
    keys
}

} // verus!
