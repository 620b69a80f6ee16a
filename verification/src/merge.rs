//! What a scan yields: the rows of storage with the buffered operations carried out on them.

use vstd::prelude::*;
use crate::entries::{
    holds_key, lemma_insert, lemma_sorted_distinct, lemma_sorted_unique, lemma_to_map, place_of,
    sorted, to_map, values_of, within,
};
use crate::error::{StorageError, StorageResult};
use crate::key::{
    key_le, key_lt, key_order, lemma_key_lt_asymmetric, lemma_key_lt_irreflexive,
    lemma_key_lt_total, lemma_key_lt_transitive, Bound, KeyOrder,
};
use crate::mem_table::{overlay, updates_stored, RowOpView};
use crate::row::{Row, RowView};

verus! {

/// The rows with their keys that storage delivers before it fails or ends.
pub open spec fn delivered(items: Seq<StorageResult<(Vec<u8>, Row)>>) -> Seq<(Seq<u8>, RowView)>
    decreases items.len(),
{
    if items.len() == 0 {
        Seq::empty()
    } else {
        match items[0] {
            Ok(item) => seq![(item.0@, item.1@)] + delivered(items.skip(1)),
            Err(_) => Seq::empty(),
        }
    }
}

/// The error with which storage fails, if it does.
pub open spec fn failure(items: Seq<StorageResult<(Vec<u8>, Row)>>) -> Option<StorageError>
    decreases items.len(),
{
    if items.len() == 0 {
        None
    } else {
        match items[0] {
            Ok(_) => failure(items.skip(1)),
            Err(error) => Some(error),
        }
    }
}

/// What an operation by itself contributes to a scan.
pub open spec fn row_of(op: (Seq<u8>, RowOpView)) -> Seq<(Seq<u8>, RowView)> {
    match op.1.row_after() {
        Some(row) => seq![(op.0, row)],
        None => Seq::empty(),
    }
}

/// The merge of the stored rows with the buffered operations: the lesser key goes first, and of a
/// key that both have the operation decides. Where storage fails after the stored rows, nothing
/// comes after the last of them.
pub open spec fn merged(
    stored: Seq<(Seq<u8>, RowView)>,
    ops: Seq<(Seq<u8>, RowOpView)>,
    fails: bool,
) -> Seq<(Seq<u8>, RowView)>
    decreases stored.len() + ops.len(),
{
    if stored.len() == 0 {
        if fails || ops.len() == 0 {
            Seq::empty()
        } else {
            row_of(ops[0]) + merged(stored, ops.skip(1), fails)
        }
    } else if ops.len() == 0 {
        seq![stored[0]] + merged(stored.skip(1), ops, fails)
    } else {
        match key_order(stored[0].0, ops[0].0) {
            KeyOrder::Less => seq![stored[0]] + merged(stored.skip(1), ops, fails),
            KeyOrder::Equal => row_of(ops[0]) + merged(stored.skip(1), ops.skip(1), fails),
            KeyOrder::Greater => row_of(ops[0]) + merged(stored, ops.skip(1), fails),
        }
    }
}

/// No update is met while the stored row that it replaces has been passed over or is missing: each
/// comes up together with a stored row of its key, or after the last stored row.
pub open spec fn updates_met(
    stored: Seq<(Seq<u8>, RowView)>,
    ops: Seq<(Seq<u8>, RowOpView)>,
) -> bool
    decreases stored.len() + ops.len(),
{
    if stored.len() == 0 || ops.len() == 0 {
        true
    } else {
        match key_order(stored[0].0, ops[0].0) {
            KeyOrder::Less => updates_met(stored.skip(1), ops),
            KeyOrder::Equal => updates_met(stored.skip(1), ops.skip(1)),
            KeyOrder::Greater => !(ops[0].1 is Update) && updates_met(stored, ops.skip(1)),
        }
    }
}

/// The items of a stream: each row, and then the error, if there is one.
pub open spec fn streams(
    items: Seq<StorageResult<Row>>,
    rows: Seq<RowView>,
    error: Option<StorageError>,
) -> bool {
    &&& items.len() == rows.len() + (if error is Some {
        1int
    } else {
        0int
    })
    &&& forall|i: int|
        0 <= i < rows.len() ==> (#[trigger] items[i] matches Ok(row) && row@ == rows[i])
    &&& error matches Some(error) ==> items.last() == Err::<Row, StorageError>(error)
}

/// The first of some sorted entries, taken apart from the rest.
proof fn lemma_first<V>(entries: Seq<(Seq<u8>, V)>)
    requires
        sorted(entries),
        entries.len() > 0,
    ensures
        sorted(entries.skip(1)),
        to_map(entries) == to_map(entries.skip(1)).insert(entries[0].0, entries[0].1),
        !to_map(entries.skip(1)).contains_key(entries[0].0),
        forall|key: Seq<u8>| #[trigger]
            to_map(entries.skip(1)).contains_key(key) ==> key_lt(entries[0].0, key),
{
    let rest = entries.skip(1);
    assert forall|a: int, b: int| 0 <= a < b < rest.len() implies key_lt(
        #[trigger] rest[a].0,
        #[trigger] rest[b].0,
    ) by {
        assert(rest[a] == entries[a + 1] && rest[b] == entries[b + 1]);
    }
    assert forall|j: int| 0 <= j < rest.len() implies key_lt(
        entries[0].0,
        #[trigger] rest[j].0,
    ) by {
        assert(rest[j] == entries[j + 1]);
    }
    lemma_insert(rest, 0, entries[0].0, entries[0].1);
    assert(rest.insert(0, entries[0]) =~= entries);
    lemma_sorted_distinct(rest);
    lemma_to_map(rest);
    assert forall|key: Seq<u8>| #[trigger] to_map(rest).contains_key(key) implies key_lt(
        entries[0].0,
        key,
    ) by {
        assert(rest[place_of(rest, key)].0 == key);
    }
}

/// An entry whose key comes before all others goes first.
proof fn lemma_prepend<V>(entry: (Seq<u8>, V), entries: Seq<(Seq<u8>, V)>)
    requires
        sorted(entries),
        forall|key: Seq<u8>| #[trigger]
            to_map(entries).contains_key(key) ==> key_lt(entry.0, key),
    ensures
        sorted(seq![entry] + entries),
        to_map(seq![entry] + entries) == to_map(entries).insert(entry.0, entry.1),
{
    lemma_sorted_distinct(entries);
    lemma_to_map(entries);
    assert forall|j: int| 0 <= j < entries.len() implies key_lt(
        entry.0,
        #[trigger] entries[j].0,
    ) by {
        assert(to_map(entries).contains_key(entries[j].0));
    }
    lemma_insert(entries, 0, entry.0, entry.1);
    assert(entries.insert(0, entry) =~= seq![entry] + entries);
}

/// The map of no entries is empty.
proof fn lemma_no_entries<V>(entries: Seq<(Seq<u8>, V)>)
    requires
        entries.len() == 0,
    ensures
        to_map(entries) == Map::<Seq<u8>, V>::empty(),
        sorted(entries),
{
    assert(to_map(entries) =~= Map::<Seq<u8>, V>::empty());
}

/// A scan sees the writes that are not committed yet: merging stored rows with buffered operations
/// yields, in the order of their keys, exactly the rows that would stand if the operations were
/// carried out on what is stored.
pub proof fn lemma_merge_is_overlay(
    stored: Seq<(Seq<u8>, RowView)>,
    ops: Seq<(Seq<u8>, RowOpView)>,
)
    requires
        sorted(stored),
        sorted(ops),
    ensures
        sorted(merged(stored, ops, false)),
        to_map(merged(stored, ops, false)) == overlay(to_map(stored), to_map(ops)),
    decreases stored.len() + ops.len(),
{
    let whole = overlay(to_map(stored), to_map(ops));
    if stored.len() == 0 && ops.len() == 0 {
        lemma_no_entries(stored);
        lemma_no_entries(ops);
        lemma_no_entries(merged(stored, ops, false));
        assert(whole =~= Map::<Seq<u8>, RowView>::empty());
    } else if ops.len() == 0 || (stored.len() > 0 && key_lt(stored[0].0, ops[0].0)) {
        lemma_first(stored);
        lemma_merge_is_overlay(stored.skip(1), ops);
        let rest = merged(stored.skip(1), ops, false);
        let first = stored[0].0;
        if ops.len() == 0 {
            lemma_no_entries(ops);
        } else {
            lemma_first(ops);
            assert(key_order(stored[0].0, ops[0].0) is Less);
        }
        assert forall|key: Seq<u8>| #[trigger] to_map(ops).contains_key(key) implies key_lt(
            first,
            key,
        ) by {
            if key != ops[0].0 {
                lemma_key_lt_transitive(first, ops[0].0, key);
            }
        }
        assert(!to_map(ops).contains_key(first)) by {
            lemma_key_lt_irreflexive(first);
        }
        lemma_prepend(stored[0], rest);
        assert(whole =~= to_map(rest).insert(first, stored[0].1));
    } else {
        lemma_first(ops);
        let first = ops[0].0;
        let equal = stored.len() > 0 && stored[0].0 == first;
        let stored_rest = if equal { stored.skip(1) } else { stored };
        if stored.len() > 0 {
            lemma_first(stored);
            lemma_key_lt_total(stored[0].0, first);
            lemma_key_lt_irreflexive(first);
            if !equal {
                lemma_key_lt_asymmetric(first, stored[0].0);
            }
        } else {
            lemma_no_entries(stored);
        }
        lemma_merge_is_overlay(stored_rest, ops.skip(1));
        let rest = merged(stored_rest, ops.skip(1), false);
        assert(merged(stored, ops, false) == row_of(ops[0]) + rest);
        assert forall|key: Seq<u8>| #[trigger] to_map(stored_rest).contains_key(key) implies key_lt(
            first,
            key,
        ) by {
            if !equal && key != stored[0].0 {
                lemma_key_lt_transitive(first, stored[0].0, key);
            }
        }
        assert(!to_map(stored_rest).contains_key(first)) by {
            lemma_key_lt_irreflexive(first);
        }
        match ops[0].1.row_after() {
            Some(row) => {
                lemma_prepend((first, row), rest);
                assert(whole =~= to_map(rest).insert(first, row));
            },
            None => {
                assert(row_of(ops[0]) + rest =~= rest);
                assert(whole =~= to_map(rest));
            },
        }
    }
}

/// The rows that a scan yields before storage fails are, in the order of their keys, those that
/// would stand with keys up to that of the last stored row; there are none where storage fails at
/// once.
pub proof fn lemma_merge_before_failure(
    stored: Seq<(Seq<u8>, RowView)>,
    ops: Seq<(Seq<u8>, RowOpView)>,
)
    requires
        sorted(stored),
        sorted(ops),
    ensures
        stored.len() == 0 ==> merged(stored, ops, true).len() == 0,
        stored.len() > 0 ==> {
            &&& sorted(merged(stored, ops, true))
            &&& to_map(merged(stored, ops, true)) == within(
                overlay(to_map(stored), to_map(ops)),
                (Bound::Unbounded, Bound::Included(stored.last().0)),
            )
        },
{
    if stored.len() > 0 {
        lemma_merge_up_to(stored, ops, stored.last().0);
    }
}

proof fn lemma_merge_up_to(
    stored: Seq<(Seq<u8>, RowView)>,
    ops: Seq<(Seq<u8>, RowOpView)>,
    last: Seq<u8>,
)
    requires
        sorted(stored),
        sorted(ops),
        stored.len() > 0 ==> last == stored.last().0,
        stored.len() == 0 ==> forall|key: Seq<u8>| #[trigger]
            to_map(ops).contains_key(key) ==> key_lt(last, key),
    ensures
        sorted(merged(stored, ops, true)),
        to_map(merged(stored, ops, true)) == within(
            overlay(to_map(stored), to_map(ops)),
            (Bound::Unbounded, Bound::Included(last)),
        ),
    decreases stored.len() + ops.len(),
{
    let bounds = (Bound::<Seq<u8>>::Unbounded, Bound::Included(last));
    let whole = within(overlay(to_map(stored), to_map(ops)), bounds);
    if stored.len() == 0 {
        lemma_no_entries(stored);
        lemma_no_entries(merged(stored, ops, true));
        assert forall|key: Seq<u8>| !whole.contains_key(key) by {
            if whole.contains_key(key) {
                lemma_key_lt_asymmetric(last, key);
            }
        }
        assert(whole =~= Map::<Seq<u8>, RowView>::empty());
    } else if ops.len() == 0 || key_lt(stored[0].0, ops[0].0) {
        let first = stored[0].0;
        let stored_rest = stored.skip(1);
        lemma_first(stored);
        if ops.len() == 0 {
            lemma_no_entries(ops);
        } else {
            lemma_first(ops);
            assert(key_order(stored[0].0, ops[0].0) is Less);
        }
        assert forall|key: Seq<u8>| #[trigger] to_map(ops).contains_key(key) implies key_lt(
            first,
            key,
        ) by {
            if key != ops[0].0 {
                lemma_key_lt_transitive(first, ops[0].0, key);
            }
        }
        assert(key_le(first, last)) by {
            if stored.len() > 1 {
                assert(key_lt(stored[0].0, stored[stored.len() - 1].0));
            }
        }
        assert(!to_map(ops).contains_key(first)) by {
            lemma_key_lt_irreflexive(first);
        }
        lemma_merge_up_to(stored_rest, ops, last);
        let rest = merged(stored_rest, ops, true);
        lemma_prepend(stored[0], rest);
        assert(whole =~= to_map(rest).insert(first, stored[0].1));
    } else {
        let first = ops[0].0;
        let equal = stored[0].0 == first;
        let stored_rest = if equal { stored.skip(1) } else { stored };
        lemma_first(ops);
        lemma_first(stored);
        lemma_key_lt_total(stored[0].0, first);
        lemma_key_lt_irreflexive(first);
        if !equal {
            lemma_key_lt_asymmetric(first, stored[0].0);
        }
        assert(key_le(first, last)) by {
            if stored.len() > 1 {
                assert(key_lt(stored[0].0, stored[stored.len() - 1].0));
                if !equal {
                    lemma_key_lt_transitive(first, stored[0].0, last);
                }
            }
        }
        lemma_merge_up_to(stored_rest, ops.skip(1), last);
        let rest = merged(stored_rest, ops.skip(1), true);
        assert(merged(stored, ops, true) == row_of(ops[0]) + rest);
        assert forall|key: Seq<u8>| #[trigger] to_map(stored_rest).contains_key(key) implies key_lt(
            first,
            key,
        ) by {
            if !equal && key != stored[0].0 {
                lemma_key_lt_transitive(first, stored[0].0, key);
            }
        }
        assert(!to_map(stored_rest).contains_key(first)) by {
            lemma_key_lt_irreflexive(first);
        }
        match ops[0].1.row_after() {
            Some(row) => {
                lemma_prepend((first, row), rest);
                assert(whole =~= to_map(rest).insert(first, row));
            },
            None => {
                assert(row_of(ops[0]) + rest =~= rest);
                assert(whole =~= to_map(rest));
            },
        }
    }
}

/// A scan of a range sees exactly the rows of that range that would stand if the whole buffer were
/// carried out on all that is stored: what storage delivers of the range, merged with the
/// operations in the range, is the range of the outcome. The rows come in the order of their keys,
/// so this fixes the sequence.
pub proof fn lemma_scan_of_a_range(
    all_stored: Map<Seq<u8>, RowView>,
    all_ops: Map<Seq<u8>, RowOpView>,
    bounds: (Bound<Seq<u8>>, Bound<Seq<u8>>),
    stored: Seq<(Seq<u8>, RowView)>,
    ops: Seq<(Seq<u8>, RowOpView)>,
)
    requires
        sorted(stored),
        sorted(ops),
        to_map(stored) == within(all_stored, bounds),
        to_map(ops) == within(all_ops, bounds),
    ensures
        sorted(merged(stored, ops, false)),
        to_map(merged(stored, ops, false)) == within(overlay(all_stored, all_ops), bounds),
        forall|rows: Seq<(Seq<u8>, RowView)>|
            sorted(rows) && #[trigger] to_map(rows) == within(overlay(all_stored, all_ops), bounds)
                ==> rows == merged(stored, ops, false),
{
    lemma_merge_is_overlay(stored, ops);
    assert(overlay(to_map(stored), to_map(ops)) =~= within(
        overlay(all_stored, all_ops),
        bounds,
    ));
    assert forall|rows: Seq<(Seq<u8>, RowView)>|
        sorted(rows) && #[trigger] to_map(rows) == within(
            overlay(all_stored, all_ops),
            bounds,
        ) implies rows == merged(stored, ops, false) by {
        lemma_sorted_unique(rows, merged(stored, ops, false));
    }
}

/// Updates of rows that are stored never meet a scan without their rows: each comes up together
/// with the stored row that it replaces, and that row is the one that it says it replaces.
pub proof fn lemma_stored_updates_are_met(
    all_stored: Map<Seq<u8>, RowView>,
    all_ops: Map<Seq<u8>, RowOpView>,
    bounds: (Bound<Seq<u8>>, Bound<Seq<u8>>),
    stored: Seq<(Seq<u8>, RowView)>,
    ops: Seq<(Seq<u8>, RowOpView)>,
)
    requires
        updates_stored(all_stored, all_ops),
        sorted(stored),
        sorted(ops),
        to_map(stored) == within(all_stored, bounds),
        to_map(ops) == within(all_ops, bounds),
    ensures
        updates_met(stored, ops),
        forall|key: Seq<u8>, old_row: RowView, new_row: RowView|
            #![trigger to_map(ops).contains_pair(key, RowOpView::Update(old_row, new_row))]
            to_map(ops).contains_pair(key, RowOpView::Update(old_row, new_row))
                ==> to_map(stored).contains_pair(key, old_row),
{
    lemma_sorted_distinct(ops);
    lemma_to_map(ops);
    assert forall|i: int| 0 <= i < ops.len() && ops[i].1 is Update implies holds_key(
        stored,
        #[trigger] ops[i].0,
    ) by {
        let key = ops[i].0;
        assert(to_map(ops).contains_key(key));
        assert(all_ops.contains_key(key));
        assert(to_map(stored).contains_key(key));
    }
    lemma_updates_with_rows_are_met(stored, ops);
    assert forall|key: Seq<u8>, old_row: RowView, new_row: RowView|
        to_map(ops).contains_pair(
            key,
            RowOpView::Update(old_row, new_row),
        ) implies to_map(stored).contains_pair(key, old_row) by {
        assert(all_ops.contains_key(key));
    }
}

/// Updates of rows that are delivered in the order of their keys never meet a scan without their
/// rows.
pub proof fn lemma_updates_with_rows_are_met(
    stored: Seq<(Seq<u8>, RowView)>,
    ops: Seq<(Seq<u8>, RowOpView)>,
)
    requires
        sorted(stored),
        sorted(ops),
        forall|i: int|
            0 <= i < ops.len() && ops[i].1 is Update ==> holds_key(stored, #[trigger] ops[i].0),
    ensures
        updates_met(stored, ops),
    decreases stored.len() + ops.len(),
{
    if stored.len() > 0 && ops.len() > 0 {
        lemma_first(stored);
        lemma_first(ops);
        lemma_sorted_distinct(stored);
        lemma_to_map(stored);
        lemma_key_lt_total(stored[0].0, ops[0].0);
        let less = key_lt(stored[0].0, ops[0].0);
        let equal = stored[0].0 == ops[0].0;
        let stored_rest = if less || equal { stored.skip(1) } else { stored };
        let ops_rest = if less { ops } else { ops.skip(1) };
        assert forall|i: int| 0 <= i < ops_rest.len() && ops_rest[i].1 is Update implies holds_key(
            stored_rest,
            #[trigger] ops_rest[i].0,
        ) by {
            let at = if less { i } else { i + 1 };
            assert(ops_rest[i] == ops[at]);
            let p = place_of(stored, ops[at].0);
            assert(holds_key(stored, ops[at].0));
            assert(stored[p].0 == ops[at].0);
            if less || equal {
                lemma_key_lt_irreflexive(stored[0].0);
                if at > 0 {
                    assert(key_lt(ops[0].0, ops[at].0));
                    if less {
                        lemma_key_lt_transitive(stored[0].0, ops[0].0, ops[at].0);
                    }
                }
                assert(p != 0);
                assert(stored_rest[p - 1].0 == ops[at].0);
            }
        }
        if !less && !equal {
            lemma_key_lt_asymmetric(ops[0].0, stored[0].0);
            if ops[0].1 is Update {
                let p = place_of(stored, ops[0].0);
                assert(holds_key(stored, ops[0].0));
                assert(stored[p].0 == ops[0].0);
                if p > 0 {
                    assert(key_lt(stored[0].0, stored[p].0));
                    lemma_key_lt_asymmetric(stored[0].0, ops[0].0);
                }
                assert(false);
            }
        }
        lemma_updates_with_rows_are_met(stored_rest, ops_rest);
        if equal {
            lemma_key_lt_irreflexive(stored[0].0);
        }
    }
}

/// Where nothing is buffered that updates a row, no update is met, whatever is delivered.
pub proof fn lemma_nothing_to_meet(
    stored: Seq<(Seq<u8>, RowView)>,
    ops: Seq<(Seq<u8>, RowOpView)>,
)
    requires
        forall|i: int| 0 <= i < ops.len() ==> !(#[trigger] ops[i].1 is Update),
    ensures
        updates_met(stored, ops),
    decreases stored.len() + ops.len(),
{
    if stored.len() > 0 && ops.len() > 0 {
        assert(!(ops[0].1 is Update));
        assert forall|i: int| 0 <= i < ops.skip(1).len() implies !(#[trigger] ops.skip(
            1,
        )[i].1 is Update) by {
            assert(ops.skip(1)[i] == ops[i + 1]);
        }
        lemma_nothing_to_meet(stored.skip(1), ops);
        lemma_nothing_to_meet(stored.skip(1), ops.skip(1));
        lemma_nothing_to_meet(stored, ops.skip(1));
    }
}

/// Storage delivers the rows of the items before the first error, each with its key, as they are;
/// and it fails with that error.
pub proof fn lemma_delivered_item_by_item(
    items: Seq<StorageResult<(Vec<u8>, Row)>>,
    n: int,
)
    requires
        0 <= n <= items.len(),
        forall|i: int| 0 <= i < n ==> #[trigger] items[i] is Ok,
        n < items.len() ==> items[n] is Err,
    ensures
        delivered(items).len() == n,
        forall|i: int|
            0 <= i < n ==> #[trigger] delivered(items)[i] == (
                items[i]->Ok_0.0@,
                items[i]->Ok_0.1@,
            ),
        failure(items) == if n < items.len() {
            Some(items[n]->Err_0)
        } else {
            None
        },
    decreases items.len(),
{
    if n > 0 {
        let rest = items.skip(1);
        assert(items[0] is Ok);
        assert forall|i: int| 0 <= i < n - 1 implies #[trigger] rest[i] is Ok by {
            assert(rest[i] == items[i + 1]);
        }
        lemma_delivered_item_by_item(rest, n - 1);
        assert forall|i: int| 0 <= i < n implies #[trigger] delivered(items)[i] == (
            items[i]->Ok_0.0@,
            items[i]->Ok_0.1@,
        ) by {
            if i > 0 {
                assert(delivered(items)[i] == delivered(rest)[i - 1]);
                assert(rest[i - 1] == items[i]);
            }
        }
    }
}

/// Without buffered operations the stored rows are all there is.
proof fn lemma_merged_without_operations(
    stored: Seq<(Seq<u8>, RowView)>,
    ops: Seq<(Seq<u8>, RowOpView)>,
    fails: bool,
)
    requires
        ops.len() == 0,
    ensures
        merged(stored, ops, fails) == stored,
    decreases stored.len(),
{
    if stored.len() > 0 {
        lemma_merged_without_operations(stored.skip(1), ops, fails);
        assert(merged(stored, ops, fails) =~= stored);
    } else {
        assert(merged(stored, ops, fails) =~= stored);
    }
}

/// Nothing is made up in a merge: each of its rows is a stored one, or the row that a buffered
/// insert or update leaves.
proof fn lemma_merged_from(
    stored: Seq<(Seq<u8>, RowView)>,
    ops: Seq<(Seq<u8>, RowOpView)>,
    fails: bool,
    i: int,
)
    requires
        0 <= i < merged(stored, ops, fails).len(),
    ensures
        ({
            let (key, row) = merged(stored, ops, fails)[i];
            ||| exists|j: int| 0 <= j < stored.len() && #[trigger] stored[j] == (key, row)
            ||| exists|j: int|
                0 <= j < ops.len() && #[trigger] ops[j].0 == key && match ops[j].1 {
                    RowOpView::Insert(new) => new == row,
                    RowOpView::Update(_, new) => new == row,
                    RowOpView::Delete(_) => false,
                }
        }),
    decreases stored.len() + ops.len(),
{
    let all = merged(stored, ops, fails);
    let takes_stored = stored.len() > 0 && (ops.len() == 0 || key_order(
        stored[0].0,
        ops[0].0,
    ) is Less);
    let with = !takes_stored && stored.len() > 0 && key_order(stored[0].0, ops[0].0) is Equal;
    let first = if takes_stored {
        seq![stored[0]]
    } else {
        row_of(ops[0])
    };
    let stored_rest = if takes_stored || with {
        stored.skip(1)
    } else {
        stored
    };
    let ops_rest = if takes_stored {
        ops
    } else {
        ops.skip(1)
    };
    let rest = merged(stored_rest, ops_rest, fails);
    assert(all == first + rest);
    if i < first.len() {
        if takes_stored {
            assert(stored[0] == all[i]);
        } else {
            assert(ops[0].0 == all[i].0);
        }
    } else {
        let at = i - first.len();
        assert(all[i] == rest[at]);
        lemma_merged_from(stored_rest, ops_rest, fails, at);
        let (key, row) = rest[at];
        if exists|j: int| 0 <= j < stored_rest.len() && #[trigger] stored_rest[j] == (key, row) {
            let j = choose|j: int|
                0 <= j < stored_rest.len() && #[trigger] stored_rest[j] == (key, row);
            let k = if takes_stored || with {
                j + 1
            } else {
                j
            };
            assert(stored[k] == (key, row));
        } else {
            let j = choose|j: int|
                0 <= j < ops_rest.len() && #[trigger] ops_rest[j].0 == key && match ops_rest[j].1 {
                    RowOpView::Insert(new) => new == row,
                    RowOpView::Update(_, new) => new == row,
                    RowOpView::Delete(_) => false,
                };
            let k = if takes_stored {
                j
            } else {
                j + 1
            };
            assert(ops[k] == ops_rest[j]);
            assert(ops[k].0 == key);
        }
    }
}

/// What the items of a scan are that streams a merge: every row comes from a stored item or from a
/// buffered insert or update, column for column; where nothing is buffered, the rows are those of
/// the items before the first error, one for one; and that error, and no other, comes last.
pub proof fn lemma_streamed_rows_come_from_items(
    items: Seq<StorageResult<(Vec<u8>, Row)>>,
    ops: Seq<(Seq<u8>, RowOpView)>,
    stream: Seq<StorageResult<Row>>,
    n: int,
)
    requires
        0 <= n <= items.len(),
        forall|i: int| 0 <= i < n ==> #[trigger] items[i] is Ok,
        n < items.len() ==> items[n] is Err,
        streams(
            stream,
            values_of(merged(delivered(items), ops, failure(items) is Some)),
            failure(items),
        ),
    ensures
        n == items.len() ==> forall|i: int| 0 <= i < stream.len() ==> #[trigger] stream[i] is Ok,
        n < items.len() ==> {
            &&& stream.len() > 0
            &&& stream[stream.len() - 1] == Err::<Row, StorageError>(items[n]->Err_0)
            &&& forall|i: int| 0 <= i < stream.len() - 1 ==> #[trigger] stream[i] is Ok
        },
        forall|i: int|
            0 <= i < stream.len() && #[trigger] stream[i] is Ok ==> {
                ||| exists|j: int| 0 <= j < n && (#[trigger] items[j])->Ok_0.1@ == stream[i]->Ok_0@
                ||| exists|j: int|
                    0 <= j < ops.len() && match (#[trigger] ops[j]).1 {
                        RowOpView::Insert(new) => new == stream[i]->Ok_0@,
                        RowOpView::Update(_, new) => new == stream[i]->Ok_0@,
                        RowOpView::Delete(_) => false,
                    }
            },
        ops.len() == 0 ==> {
            &&& stream.len() == if n < items.len() {
                n + 1
            } else {
                n
            }
            &&& forall|i: int|
                0 <= i < n ==> (#[trigger] stream[i] matches Ok(row) && row@ == items[i]->Ok_0.1@)
        },
{
    let stored = delivered(items);
    let all = merged(stored, ops, failure(items) is Some);
    lemma_delivered_item_by_item(items, n);
    if n < items.len() {
        assert(stream.last() == stream[stream.len() - 1]);
    }
    assert forall|i: int| 0 <= i < stream.len() && #[trigger] stream[i] is Ok implies {
        ||| exists|j: int| 0 <= j < n && (#[trigger] items[j])->Ok_0.1@ == stream[i]->Ok_0@
        ||| exists|j: int|
            0 <= j < ops.len() && match (#[trigger] ops[j]).1 {
                RowOpView::Insert(new) => new == stream[i]->Ok_0@,
                RowOpView::Update(_, new) => new == stream[i]->Ok_0@,
                RowOpView::Delete(_) => false,
            }
    } by {
        assert(values_of(all)[i] == all[i].1);
        lemma_merged_from(stored, ops, failure(items) is Some, i);
        let (key, row) = all[i];
        if exists|j: int| 0 <= j < stored.len() && #[trigger] stored[j] == (key, row) {
            let j = choose|j: int| 0 <= j < stored.len() && #[trigger] stored[j] == (key, row);
            assert(items[j]->Ok_0.1@ == row);
        } else {
            let j = choose|j: int|
                0 <= j < ops.len() && #[trigger] ops[j].0 == key && match ops[j].1 {
                    RowOpView::Insert(new) => new == row,
                    RowOpView::Update(_, new) => new == row,
                    RowOpView::Delete(_) => false,
                };
            assert(ops[j].1 is Insert || ops[j].1 is Update);
        }
    }
    if ops.len() == 0 {
        lemma_merged_without_operations(stored, ops, failure(items) is Some);
        assert forall|i: int| 0 <= i < n implies (#[trigger] stream[i] matches Ok(row) && row@
            == items[i]->Ok_0.1@) by {
            assert(values_of(all)[i] == all[i].1);
        }
    }
}

/// The rows of a scan in the order of their keys: `keys` are the keys of the rows that the stream
/// yields. They ascend. Under a key with a buffered insert or update stands its row, under one with
/// a buffered delete none, and under any other the row that storage delivered. None is missing; but
/// where storage fails, nothing comes after the key of the last delivered row.
pub proof fn lemma_streamed_rows_by_key(
    items: Seq<StorageResult<(Vec<u8>, Row)>>,
    ops: Seq<(Seq<u8>, RowOpView)>,
    stream: Seq<StorageResult<Row>>,
    n: int,
) -> (keys: Seq<Seq<u8>>)
    requires
        0 <= n <= items.len(),
        forall|i: int| 0 <= i < n ==> #[trigger] items[i] is Ok,
        n < items.len() ==> items[n] is Err,
        forall|i: int, j: int|
            0 <= i < j < n ==> key_lt(
                (#[trigger] items[i])->Ok_0.0@,
                (#[trigger] items[j])->Ok_0.0@,
            ),
        forall|i: int, j: int|
            0 <= i < j < ops.len() ==> key_lt(#[trigger] ops[i].0, #[trigger] ops[j].0),
        streams(
            stream,
            values_of(merged(delivered(items), ops, failure(items) is Some)),
            failure(items),
        ),
    ensures
        stream.len() == if n < items.len() {
            keys.len() + 1
        } else {
            keys.len()
        },
        forall|i: int, j: int|
            0 <= i < j < keys.len() ==> key_lt(#[trigger] keys[i], #[trigger] keys[j]),
        forall|i: int|
            #![trigger keys[i]]
            0 <= i < keys.len() ==> (stream[i] matches Ok(row) && {
                ||| exists|j: int|
                    0 <= j < ops.len() && #[trigger] ops[j].0 == keys[i]
                        && match ops[j].1 {
                        RowOpView::Insert(new) => new == row@,
                        RowOpView::Update(_, new) => new == row@,
                        RowOpView::Delete(_) => false,
                    }
                ||| {
                    &&& forall|j: int| 0 <= j < ops.len() ==> #[trigger] ops[j].0 != keys[i]
                    &&& exists|j: int|
                        0 <= j < n && (#[trigger] items[j])->Ok_0.0@ == keys[i]
                            && items[j]->Ok_0.1@ == row@
                }
            }),
        forall|j: int|
            0 <= j < n && (forall|k: int|
                0 <= k < ops.len() ==> #[trigger] ops[k].0 != items[j]->Ok_0.0@) ==> keys.contains(
                (#[trigger] items[j])->Ok_0.0@,
            ),
        forall|j: int|
            0 <= j < ops.len() && !((#[trigger] ops[j]).1 is Delete) && (n == items.len() || (n > 0
                && !key_lt(items[n - 1]->Ok_0.0@, ops[j].0))) ==> keys.contains(ops[j].0),
        n < items.len() ==> forall|i: int|
            0 <= i < keys.len() ==> n > 0 && !key_lt(items[n - 1]->Ok_0.0@, #[trigger] keys[i]),
{
    let stored = delivered(items);
    let fails = failure(items) is Some;
    let all = merged(stored, ops, fails);
    let keys = Seq::new(all.len(), |i: int| all[i].0);
    lemma_delivered_item_by_item(items, n);
    assert forall|i: int, j: int| 0 <= i < j < stored.len() implies key_lt(
        #[trigger] stored[i].0,
        #[trigger] stored[j].0,
    ) by {
        assert(items[i] is Ok && items[j] is Ok);
    }
    lemma_sorted_distinct(stored);
    lemma_to_map(stored);
    lemma_sorted_distinct(ops);
    lemma_to_map(ops);
    if fails {
        lemma_merge_before_failure(stored, ops);
        if n == 0 {
            lemma_no_entries(all);
        }
    } else {
        lemma_merge_is_overlay(stored, ops);
    }
    lemma_sorted_distinct(all);
    lemma_to_map(all);
    assert forall|i: int, j: int| 0 <= i < j < keys.len() implies key_lt(
        #[trigger] keys[i],
        #[trigger] keys[j],
    ) by {
        assert(key_lt(all[i].0, all[j].0));
    }
    assert forall|i: int|
        #![trigger keys[i]]
        0 <= i < keys.len() implies (stream[i] matches Ok(row) && {
        ||| exists|j: int|
            0 <= j < ops.len() && #[trigger] ops[j].0 == keys[i] && match ops[j].1 {
                RowOpView::Insert(new) => new == row@,
                RowOpView::Update(_, new) => new == row@,
                RowOpView::Delete(_) => false,
            }
        ||| {
            &&& forall|j: int| 0 <= j < ops.len() ==> #[trigger] ops[j].0 != keys[i]
            &&& exists|j: int|
                0 <= j < n && (#[trigger] items[j])->Ok_0.0@ == keys[i] && items[j]->Ok_0.1@ == row@
        }
    }) by {
        let key = keys[i];
        assert(values_of(all)[i] == all[i].1);
        assert(to_map(all).contains_key(all[i].0));
        assert(overlay(to_map(stored), to_map(ops)).contains_pair(key, all[i].1));
        if to_map(ops).contains_key(key) {
            assert(ops[place_of(ops, key)].0 == key);
        } else {
            let j = place_of(stored, key);
            assert(to_map(stored).contains_key(key));
            assert(items[j]->Ok_0.0@ == key);
            assert forall|j: int| 0 <= j < ops.len() implies #[trigger] ops[j].0 != keys[i] by {
                assert(to_map(ops).contains_key(ops[j].0));
            }
        }
    }
    assert forall|key: Seq<u8>| #[trigger] to_map(all).contains_key(key) implies keys.contains(
        key,
    ) by {
        assert(keys[place_of(all, key)] == key);
    }
    let last = items[n - 1]->Ok_0.0@;
    assert(n > 0 ==> stored.last().0 == last);
    assert forall|j: int|
        0 <= j < n && (forall|k: int|
            0 <= k < ops.len() ==> #[trigger] ops[k].0 != items[j]->Ok_0.0@) implies keys.contains(
        (#[trigger] items[j])->Ok_0.0@,
    ) by {
        let key = stored[j].0;
        assert(to_map(stored).contains_key(stored[j].0));
        if to_map(ops).contains_key(key) {
            assert(ops[place_of(ops, key)].0 == key);
        }
        if j < n - 1 {
            assert(key_lt(items[j]->Ok_0.0@, items[n - 1]->Ok_0.0@));
        }
        assert(to_map(all).contains_key(key));
    }
    assert forall|j: int|
        0 <= j < ops.len() && !((#[trigger] ops[j]).1 is Delete) && (n == items.len() || (n > 0
            && !key_lt(items[n - 1]->Ok_0.0@, ops[j].0))) implies keys.contains(ops[j].0) by {
        let key = ops[j].0;
        assert(to_map(ops).contains_key(ops[j].0));
        lemma_key_lt_total(last, key);
        assert(to_map(all).contains_key(key));
    }
    if n < items.len() {
        assert forall|i: int| 0 <= i < keys.len() implies n > 0 && !key_lt(
            items[n - 1]->Ok_0.0@,
            #[trigger] keys[i],
        ) by {
            assert(to_map(all).contains_key(all[i].0));
            lemma_key_lt_irreflexive(last);
            if key_lt(keys[i], last) {
                lemma_key_lt_asymmetric(keys[i], last);
            }
        }
    }
    keys
}

} // verus!
