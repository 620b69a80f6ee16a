//! The rows of one join key.

use vstd::prelude::*;
use crate::entries::{
    distinct, holds_key, lemma_map_insert, lemma_map_remove, lemma_map_update, lemma_to_map, lookup,
    to_map,
};
use crate::join_row::{JoinRow, JoinRowView};
use crate::row::{Row, RowView};

verus! {

/// The cached rows of one join key, by their primary keys.
#[derive(Debug)]
pub struct JoinEntryState {
    cached: Vec<(Row, JoinRow)>,
}

impl View for JoinEntryState {
    type V = Map<RowView, JoinRowView>;

    open spec fn view(&self) -> Map<RowView, JoinRowView> {
        to_map(self.entries())
    }
}

impl JoinEntryState {
    pub closed spec fn entries(&self) -> Seq<(RowView, JoinRowView)> {
        Seq::new(self.cached@.len(), |i: int| (self.cached@[i].0@, self.cached@[i].1@))
    }

    /// No primary key occurs twice.
    pub open spec fn wf(&self) -> bool {
        distinct(self.entries())
    }

    /// A state without rows.
    pub fn new() -> (state: Self)
        ensures
            state.wf(),
            state@ == Map::<RowView, JoinRowView>::empty(),
    {
        let state = JoinEntryState { cached: Vec::new() };
        assert(state@ =~= Map::<RowView, JoinRowView>::empty());
        state
    }

    /// The place of the row with this primary key, if there is one.
    fn position(&self, pk: &Row) -> (place: Option<usize>)
        requires
            self.wf(),
        ensures
            match place {
                Some(i) => i < self.entries().len() && self.entries()[i as int].0 == pk@,
                None => !holds_key(self.entries(), pk@),
            },
    {
        let mut i: usize = 0;
        while i < self.cached.len()
            invariant
                i <= self.cached@.len(),
                self.entries().len() == self.cached@.len(),
                forall|j: int| 0 <= j < i ==> #[trigger] self.entries()[j].0 != pk@,
            decreases self.cached@.len() - i,
        {
            if self.cached[i].0 == *pk {
                return Some(i);
            }
            i = i + 1;
        }
        None
    }

    /// The row with this primary key, if there is one.
    pub fn get(&self, pk: &Row) -> (row: Option<&JoinRow>)
        requires
            self.wf(),
        ensures
            match row {
                Some(row) => lookup(self@, pk@) == Some(row@),
                None => lookup(self@, pk@) is None,
            },
    {
        proof {
            lemma_to_map(self.entries());
        }
        match self.position(pk) {
            Some(i) => {
                assert(self.entries()[i as int].0 == pk@);
                Some(&self.cached[i].1)
            },
            None => None,
        }
    }

    /// Puts a row under its primary key, in the place of the one that is there.
    pub fn insert(&mut self, pk: Row, value: JoinRow)
        requires
            old(self).wf(),
        ensures
            final(self).wf(),
            final(self)@ == old(self)@.insert(pk@, value@),
    {
        let ghost before = self.entries();
        let ghost at = pk@;
        let ghost row = value@;
        match self.position(&pk) {
            Some(i) => {
                self.cached.set(i, (pk, value));
                proof {
                    lemma_map_update(before, i as int, row);
                    assert(self.entries() =~= before.update(i as int, (at, row)));
                }
            },
            None => {
                self.cached.push((pk, value));
                proof {
                    lemma_map_insert(before, before.len() as int, at, row);
                    assert(self.entries() =~= before.insert(before.len() as int, (at, row)));
                }
            },
        }
    }

    /// Takes the row with this primary key out, if there is one.
    pub fn remove(&mut self, pk: Row)
        requires
            old(self).wf(),
        ensures
            final(self).wf(),
            final(self)@ == old(self)@.remove(pk@),
    {
        let ghost before = self.entries();
        match self.position(&pk) {
            Some(i) => {
                let _ = self.cached.remove(i);
                proof {
                    lemma_map_remove(before, i as int);
                    assert(self.entries() =~= before.remove(i as int));
                }
            },
            None => {
                assert(self@ =~= old(self)@.remove(pk@));
            },
        }
    }
}

/// A state tells the row that it has under a primary key, and none where it has none.
pub proof fn lemma_get_finds_the_row(state: JoinEntryState, pk: &Row, row: Option<&JoinRow>)
    requires
        call_ensures(JoinEntryState::get, (&state, pk), row),
    ensures
        match row {
            Some(row) => state@.contains_pair(pk@, row@),
            None => !state@.contains_key(pk@),
        },
{
}

/// A row that was put in is found under its primary key, in the place of the one that was there, and
/// under any other primary key the same is found as before.
pub proof fn lemma_inserted_row_is_found(
    state: &mut JoinEntryState,
    pk: Row,
    value: JoinRow,
    asked: &Row,
    before: Option<&JoinRow>,
    after: Option<&JoinRow>,
)
    requires
        call_ensures(JoinEntryState::get, (&*old(state), asked), before),
        call_ensures(JoinEntryState::insert, (state, pk, value), ()),
        call_ensures(JoinEntryState::get, (&*final(state), asked), after),
    ensures
        asked@ == pk@ ==> (after matches Some(row) && row@ == value@),
        asked@ != pk@ ==> match before {
            Some(row) => after matches Some(same) && same@ == row@,
            None => after is None,
        },
{
}

/// A row that was taken out is not found under its primary key any more, and under any other primary
/// key the same is found as before.
pub proof fn lemma_removed_row_is_gone(
    state: &mut JoinEntryState,
    pk: Row,
    asked: &Row,
    before: Option<&JoinRow>,
    after: Option<&JoinRow>,
)
    requires
        call_ensures(JoinEntryState::get, (&*old(state), asked), before),
        call_ensures(JoinEntryState::remove, (state, pk), ()),
        call_ensures(JoinEntryState::get, (&*final(state), asked), after),
    ensures
        asked@ == pk@ ==> after is None,
        asked@ != pk@ ==> match before {
            Some(row) => after matches Some(same) && same@ == row@,
            None => after is None,
        },
{
}

} // verus!
