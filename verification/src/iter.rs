//! A cursor over the occupied slots of a chain of lists.

use crate::list::{entries_from, lemma_entries_step, List};
use vstd::prelude::*;

verus! {

/// Walks the occupied slots of a chain, from the newest list to the oldest and
/// by slot within a list.
pub struct RawIter {
    /// The number of occupied slots that were not visited yet.
    pub remaining: usize,
    /// The next slot to look at.
    pub index: usize,
    /// The list that this slot is in.
    pub level: usize,
}

impl RawIter {
    /// The values that are still to be visited, with their ids.
    pub open spec fn ahead<T>(&self, lists: Seq<List<T>>) -> Seq<(usize, T)> {
        entries_from(lists, self.level as int, self.index as int)
    }

    /// The cursor is within the chain and knows how many values are ahead.
    pub open spec fn wf<T>(&self, lists: Seq<List<T>>) -> bool {
        &&& self.level < lists.len()
        &&& self.remaining == self.ahead(lists).len()
    }

    /// Moves past the next occupied slot, and returns it with its list.
    pub fn next<T>(&mut self, lists: &Vec<List<T>>) -> (slot: Option<(usize, usize)>)
        requires
            old(self).wf(lists@),
        ensures
            final(self).wf(lists@),
            slot is None <==> old(self).ahead(lists@).len() == 0,
            slot is None ==> *final(self) == *old(self),
            slot matches Some((level, slot)) ==> {
                &&& level < lists@.len()
                &&& slot < lists@[level as int].values@.len()
                &&& lists@[level as int].values@[slot as int] == Some(old(self).ahead(lists@)[0])
                &&& final(self).ahead(lists@) == old(self).ahead(lists@).drop_first()
                &&& final(self).level == level
                &&& final(self).index == slot + 1
            },
    {
        if self.remaining == 0 {
            return None;
        }
        let ghost all = self.ahead(lists@);
        loop
            invariant
                self.level < lists@.len(),
                self.remaining == all.len(),
                self.remaining > 0,
                self.ahead(lists@) == all,
                all == old(self).ahead(lists@),
            decreases self.level,
        {
            let ghost level = self.level;
            let values = &lists[self.level].values;
            while self.index < values.len()
                invariant
                    self.level == level,
                    self.level < lists@.len(),
                    values@ == lists@[self.level as int].values@,
                    self.remaining == all.len(),
                    self.remaining > 0,
                    self.ahead(lists@) == all,
                    all == old(self).ahead(lists@),
                decreases values@.len() - self.index,
            {
                let slot: usize = self.index;
                proof {
                    lemma_entries_step(lists@, self.level as int, slot as int);
                }
                self.index = self.index + 1;
                if values[slot].is_some() {
                    self.remaining = self.remaining - 1;
                    return Some((self.level, slot));
                }
            }
            proof {
                assert(all == entries_from(lists@, level - 1, 0));
                assert(level > 0);
            }
            self.index = 0;
            self.level = self.level - 1;
        }
    }

    /// The exact number of values that are still to be visited, twice.
    pub fn size_hint(&self) -> (hint: (usize, Option<usize>))
        ensures
            hint == (self.remaining, Some(self.remaining)),
    {
        (self.remaining, Some(self.remaining))
    }
}

} // verus!
