//! The thread-local object itself, and the iterators over its values.

use crate::iter::RawIter;
use crate::list::{
    contents, entries, growing, holds, lemma_contents, lemma_entries_agree,
    lemma_entries_are_contents, lemma_extend, lemma_fill, lemma_has_vacancy, lemma_overwrite,
    lemma_vacate, newest_holds, occupied, present, same_but, unique, List,
};
use vstd::prelude::*;
use vstd::seq_lib::seq_to_set_is_finite;
use vstd::set_lib::{lemma_int_range, lemma_len_subset, lemma_map_size, set_int_range};

verus! {

/// Thread-local variable wrapper: a separate value for each thread.
///
/// A thread is known by its id. See the crate documentation for more.
pub struct ThreadLocal<T: Send> {
    /// The lists of values, oldest first. Values are looked up in the last one
    /// first, and are moved there when they are found in an older one.
    lists: Vec<List<T>>,
    /// The total number of values in the lists.
    count: usize,
}

/// The number of slots after room was made for one more value, that of the thread
/// `id`: as many as before if there are fewer `values` than slots, and at least
/// twice as many otherwise.
pub open spec fn grown_capacity(capacity: int, values: int, id: int) -> int {
    if values < capacity {
        capacity
    } else if 2 * capacity > id + 1 {
        2 * capacity
    } else {
        id + 1
    }
}

/// Whether every value stays in its slot, but for that of the thread `id`. The
/// slots are those of the lists before and after an access, oldest list first.
pub open spec fn others_stay<T>(
    before: Seq<Seq<Option<(usize, T)>>>,
    id: usize,
    after: Seq<Seq<Option<(usize, T)>>>,
) -> bool {
    &&& before.len() <= after.len()
    &&& forall|level: int|
        0 <= level < before.len() ==> (#[trigger] before[level]).len() == after[level].len()
    &&& forall|level: int, slot: int|
        0 <= level < before.len() && 0 <= slot < before[level].len() && (
        #[trigger] before[level][slot]) is Some && (before[level][slot]->0).0 != id
            ==> after[level][slot] == before[level][slot]
}

/// Whether the value of the thread `id` was put into an empty slot of the newest
/// list: into the slot with the number of the id if that was empty. All other slots
/// are as they were.
pub open spec fn fills<T>(
    before: Seq<Seq<Option<(usize, T)>>>,
    id: usize,
    element: T,
    after: Seq<Seq<Option<(usize, T)>>>,
) -> bool {
    exists|slot: int|
        {
            &&& 0 <= slot < before.last().len()
            &&& before.last()[slot] is None
            &&& id < before.last().len() && before.last()[id as int] is None ==> slot == id
            &&& after == before.drop_last().push(
                #[trigger] before.last().update(slot, Some((id, element))),
            )
        }
}

impl<T: Send> View for ThreadLocal<T> {
    type V = Map<usize, T>;

    /// The values, by the id of the thread that they belong to.
    closed spec fn view(&self) -> Map<usize, T> {
        contents(self.lists@)
    }
}

impl<T: Send> ThreadLocal<T> {
    /// The lists form a chain, and their values are counted. The newest list has
    /// a slot for each of them.
    pub open spec fn wf(&self) -> bool {
        self.wf_but(0)
    }

    /// As [`wf`](ThreadLocal::wf), while `moving` of the values that are counted are
    /// in no list.
    pub closed spec fn wf_but(&self, moving: int) -> bool {
        &&& self.lists@.len() > 0
        &&& growing(self.lists@)
        &&& unique(self.lists@)
        &&& self.count == entries(self.lists@).len() + moving
        &&& self.count <= self.lists@.last().values@.len()
    }

    /// The number of values that are counted.
    pub closed spec fn counted(&self) -> int {
        self.count as int
    }

    /// The slots of the lists, oldest list first. A slot is empty or holds a value
    /// and the id of the thread that it belongs to.
    pub closed spec fn slots(&self) -> Seq<Seq<Option<(usize, T)>>> {
        Seq::new(self.lists@.len(), |level: int| self.lists@[level].values@)
    }

    /// Whether the newest list holds the value of the thread `id`.
    pub closed spec fn in_newest(&self, id: usize) -> bool {
        exists|slot: int| newest_holds(self.lists@, slot, id)
    }

    /// The number of slots in the newest list: as many threads can have a value
    /// without another list.
    pub closed spec fn capacity(&self) -> int {
        self.lists@.last().values@.len() as int
    }

    /// The values with their ids, in the order in which the iterators give them.
    pub closed spec fn entries(&self) -> Seq<(usize, T)> {
        entries(self.lists@)
    }

    /// Whether a value can be added for `id`: a list that has to be added for it is
    /// not too long for a vector.
    pub open spec fn has_room_for(&self, id: usize) -> bool {
        grown_capacity(self.capacity(), self@.len() as int, id as int) <= isize::MAX
    }

    /// An access that changes no value and adds no list leaves `after`.
    pub open spec fn unchanged(&self, after: &Self) -> bool {
        &&& after@ == self@
        &&& after.capacity() == self.capacity()
        &&& after.slots().len() == self.slots().len()
    }

    /// An access by the thread `id`, which has a value, gives that value and
    /// leaves `after`. The value is in the newest list then, and nothing changes if
    /// it was there before.
    pub open spec fn finds(&self, id: usize, element: T, after: &Self) -> bool {
        &&& self@.contains_key(id)
        &&& element == self@[id]
        &&& self.unchanged(after)
        &&& after.in_newest(id)
        &&& self.in_newest(id) ==> *after == *self
        &&& others_stay(self.slots(), id, after.slots())
    }

    /// An access by the thread `id`, which has no value, adds one and leaves
    /// `after`.
    pub open spec fn adds(&self, id: usize, element: T, after: &Self) -> bool {
        &&& !self@.contains_key(id)
        &&& after@ == self@.insert(id, element)
        &&& after.capacity() == grown_capacity(self.capacity(), self@.len() as int, id as int)
        &&& after.in_newest(id)
        &&& after.slots().len() == self.slots_with_room(id).len()
        &&& fills(self.slots_with_room(id), id, element, after.slots())
        &&& others_stay(self.slots(), id, after.slots())
    }

    /// The slots with room for one more value, that of the thread `id`: an empty list
    /// is added exactly if there are as many values as slots.
    pub open spec fn slots_with_room(&self, id: usize) -> Seq<Seq<Option<(usize, T)>>> {
        if self@.len() < self.capacity() {
            self.slots()
        } else {
            let len = grown_capacity(self.capacity(), self@.len() as int, id as int);
            self.slots().push(Seq::new(len as nat, |slot: int| None::<(usize, T)>))
        }
    }

    /// Creates a new empty `ThreadLocal`.
    pub fn new() -> (local: ThreadLocal<T>)
        ensures
            local.wf(),
            local@ == Map::<usize, T>::empty(),
            local.capacity() == 2,
            local.slots().len() == 1,
    {
        ThreadLocal::with_capacity(2)
    }

    /// Creates a new `ThreadLocal` with an initial capacity. If less than the capacity threads
    /// access the thread local it will never reallocate.
    pub fn with_capacity(capacity: usize) -> (local: ThreadLocal<T>)
        requires
            capacity <= isize::MAX,
        ensures
            local.wf(),
            local@ == Map::<usize, T>::empty(),
            local.capacity() == capacity,
            local.slots().len() == 1,
    {
        let mut lists: Vec<List<T>> = Vec::new();
        lists.push(List::empty(capacity));
        proof {
            assert forall|level: int, slot: int, id: usize| !holds(lists@, level, slot, id) by {}
            assert(contents(lists@) =~= Map::<usize, T>::empty());
            crate::list::lemma_entries_skip_empty(lists@, 0, 0);
        }
        ThreadLocal { lists, count: 0 }
    }

    /// Whether an element can be created for the thread with the given id: a list
    /// that has to be added for it must not be too long for a vector.
    pub fn has_room(&self, id: usize) -> (room: bool)
        requires
            self.wf(),
        ensures
            room == self.has_room_for(id),
    {
        let len: usize = self.lists[self.lists.len() - 1].values.len();
        assert(len <= isize::MAX) by {
            assert(self.lists@[self.lists@.len() - 1].values@.len() <= isize::MAX);
        }
        proof {
            lemma_entries_are_contents(self.lists@);
        }
        self.count < len || (id < isize::MAX as usize && len <= isize::MAX as usize / 2)
    }

    /// Returns the element for the current thread, if it exists.
    ///
    /// `current` is the id of the current thread. A thread that was not given
    /// an id has no element, and is not given one here.
    pub fn get(&mut self, current: Option<usize>) -> (element: Option<&T>)
        requires
            old(self).wf(),
        ensures
            final(self).wf(),
            match (current, element) {
                (Some(id), Some(element)) => old(self).finds(id, *element, final(self)),
                (Some(id), None) => !old(self)@.contains_key(id) && *final(self) == *old(self),
                (None, element) => element is None && *final(self) == *old(self),
            },
    {
        match current {
            Some(id) => self.get_fast(id),
            None => None,
        }
    }

    /// Fast path: try to find the thread in the newest list.
    pub(crate) fn get_fast(&mut self, id: usize) -> (element: Option<&T>)
        requires
            old(self).wf(),
        ensures
            final(self).wf(),
            match element {
                Some(element) => old(self).finds(id, *element, final(self)),
                None => !old(self)@.contains_key(id) && *final(self) == *old(self),
            },
    {
        let top: usize = self.lists.len() - 1;
        if let Some(slot) = self.lists[top].find(id) {
            proof {
                assert(newest_holds(self.lists@, slot as int, id));
                lemma_contents(self.lists@, top as int, slot as int, id);
            }
            return match &self.lists[top].values[slot] {
                Some(entry) => Some(&entry.1),
                None => None,
            };
        }
        assert(!self.in_newest(id));
        self.get_slow(id)
    }

    /// Slow path: try to find the thread in the other lists, and then move its
    /// value to the newest list.
    pub(crate) fn get_slow(&mut self, id: usize) -> (element: Option<&T>)
        requires
            old(self).wf(),
            !old(self).in_newest(id),
        ensures
            final(self).wf(),
            match element {
                Some(element) => {
                    &&& old(self).finds(id, *element, final(self))
                    &&& final(self).counted() == old(self).counted()
                },
                None => !old(self)@.contains_key(id) && *final(self) == *old(self),
            },
    {
        let mut level: usize = self.lists.len() - 1;
        assert forall|slot: int| !holds(self.lists@, level as int, slot, id) by {
            assert(!newest_holds(self.lists@, slot, id));
        }
        while level > 0
            invariant
                *self == *old(self),
                self.wf(),
                level < self.lists@.len(),
                forall|newer: int, slot: int|
                    level <= newer ==> !holds(self.lists@, newer, slot, id),
            decreases level,
        {
            level = level - 1;
            if let Some(slot) = self.lists[level].find(id) {
                proof {
                    assert(holds(self.lists@, level as int, slot as int, id));
                    lemma_contents(self.lists@, level as int, slot as int, id);
                }
                let value = self.lists[level].values[slot].take().unwrap().1;
                proof {
                    assert(same_but(old(self).lists@, self.lists@, level as int, slot as int));
                    lemma_vacate(old(self).lists@, self.lists@, level as int, slot as int, id);
                    assert(old(self)@.remove(id).insert(id, value) =~= old(self)@);
                    lemma_entries_are_contents(self.lists@);
                    assert(self.lists@[self.lists@.len() - 1].values@.len() <= isize::MAX);
                }
                return Some(self.insert(id, value, false));
            }
        }
        None
    }

    /// Puts a value into the newest list. If that has no slot for one more value, a
    /// longer list is added first. `new` tells whether the value was not counted
    /// yet.
    pub(crate) fn insert(&mut self, id: usize, data: T, new: bool) -> (element: &T)
        requires
            old(self).wf_but(
                if new {
                    0
                } else {
                    1
                },
            ),
            !old(self)@.contains_key(id),
            old(self).has_room_for(id),
        ensures
            *element == data,
            final(self).wf(),
            old(self).adds(id, data, final(self)),
            final(self).counted() == old(self).counted() + (if new {
                1int
            } else {
                0int
            }),
    {
        proof {
            lemma_entries_are_contents(self.lists@);
        }
        let len: usize = self.lists[self.lists.len() - 1].values.len();
        assert(len <= isize::MAX) by {
            assert(self.lists@[self.lists@.len() - 1].values@.len() <= isize::MAX);
        }
        // If there isn't space for this thread's local, add a new list.
        if new && self.count >= len {
            let doubled: usize = len * 2;
            let needed: usize = id + 1;
            // Values will be lazily moved into the newest list, so it starts
            // out empty.
            let list = List::empty(if doubled > needed { doubled } else { needed });
            proof {
                lemma_extend(self.lists@, list);
            }
            self.lists.push(list);
        }
        if new {
            self.count = self.count + 1;
        }
        let ghost extended = self.lists@;
        // Insert the new element into the newest list.
        let top: usize = self.lists.len() - 1;
        proof {
            lemma_has_vacancy(extended);
        }
        let slot: usize = self.lists[top].vacancy(id);
        self.lists[top].values[slot] = Some((id, data));
        proof {
            assert(contents(extended) == old(self)@);
            assert(!present(extended, id)) by {
                if present(extended, id) {
                    assert(contents(extended).contains_key(id));
                    assert(contents(old(self).lists@).contains_key(id));
                }
            }
            assert(same_but(extended, self.lists@, top as int, slot as int));
            assert(newest_holds(self.lists@, slot as int, id));
            lemma_fill(extended, self.lists@, top as int, slot as int, id);
            let lists = old(self).slots_with_room(id);
            assert(lists.last() =~= extended.last().values@);
            assert(lists.drop_last() =~= self.slots().drop_last());
            let filled = lists.last().update(slot as int, Some((id, data)));
            assert(self.slots().last() =~= filled);
            assert(self.slots() =~= lists.drop_last().push(filled));
        }
        &self.lists[top].values[slot].as_ref().unwrap().1
    }

    /// Returns the element for the thread with the given id, or creates it if
    /// it doesn't exist. If `create` fails, that error is returned and no
    /// element is added.
    pub fn get_or_try<F, E>(&mut self, id: usize, create: F) -> (element: Result<&T, E>) where
        F: FnOnce() -> Result<T, E>,

        requires
            old(self).wf(),
            !old(self)@.contains_key(id) ==> {
                &&& create.requires(())
                &&& forall|data: T|
                    create.ensures((), Ok::<T, E>(data)) ==> old(self).has_room_for(id)
            },
        ensures
            final(self).wf(),
            match element {
                Ok(element) => {
                    ||| old(self).finds(id, *element, final(self))
                    ||| old(self).adds(id, *element, final(self)) && create.ensures(
                        (),
                        Ok(*element),
                    )
                },
                Err(error) => {
                    &&& !old(self)@.contains_key(id)
                    &&& create.ensures((), Err(error))
                    &&& *final(self) == *old(self)
                },
            },
    {
        if self.get_fast(id).is_some() {
            return Ok(self.get_fast(id).unwrap());
        }
        match create() {
            Ok(data) => Ok(self.insert(id, data, true)),
            Err(error) => Err(error),
        }
    }

    /// Returns the element for the thread with the given id, or creates it if
    /// it doesn't exist.
    pub fn get_or<F>(&mut self, id: usize, create: F) -> (element: &T) where F: FnOnce() -> T
        requires
            old(self).wf(),
            !old(self)@.contains_key(id) ==> old(self).has_room_for(id) && create.requires(()),
        ensures
            final(self).wf(),
            ({
                ||| old(self).finds(id, *element, final(self))
                ||| old(self).adds(id, *element, final(self)) && create.ensures((), *element)
            }),
    {
        let create = move || -> (created: Result<T, ()>)
            requires
                create.requires(()),
            ensures
                created is Ok,
                create.ensures((), created->Ok_0),
            { Ok(create()) };
        self.get_or_try(id, create).unwrap()
    }

    /// Starts a walk over the occupied slots.
    fn raw_iter(&self) -> (raw: RawIter)
        requires
            self.wf(),
        ensures
            raw.wf(self.lists@),
            raw.ahead(self.lists@) == self.entries(),
            raw.remaining <= isize::MAX,
    {
        proof {
            assert(self.lists@[self.lists@.len() - 1].values@.len() <= isize::MAX);
        }
        RawIter { remaining: self.count, index: 0, level: self.lists.len() - 1 }
    }

    /// Returns a mutable iterator over the local values of all threads in
    /// unspecified order.
    ///
    /// Since this call borrows the `ThreadLocal` mutably, this operation can
    /// be done safely---the mutable borrow statically guarantees no other
    /// threads are currently accessing their associated values.
    pub fn iter_mut(&mut self) -> (iter: IterMut<'_, T>)
        requires
            old(self).wf(),
        ensures
            iter.wf(),
            iter@ == old(self).entries(),
            *iter.local() == *old(self),
            *final(iter.local()) == *final(self),
    {
        IterMut { raw: self.raw_iter(), local: self }
    }

    /// Returns an iterator that moves the local values of all threads out, in
    /// unspecified order.
    pub fn into_iter(self) -> (iter: IntoIter<T>)
        requires
            self.wf(),
        ensures
            iter.wf(),
            iter@ == self.entries(),
    {
        IntoIter { raw: self.raw_iter(), local: self }
    }

    /// Removes all thread-specific values from the `ThreadLocal`, effectively
    /// reseting it to its original state.
    ///
    /// Since this call borrows the `ThreadLocal` mutably, this operation can
    /// be done safely---the mutable borrow statically guarantees no other
    /// threads are currently accessing their associated values.
    pub fn clear(&mut self)
        ensures
            final(self).wf(),
            final(self)@ == Map::<usize, T>::empty(),
            final(self).capacity() == 2,
            final(self).slots().len() == 1,
    {
        *self = ThreadLocal::new();
    }

    /// The text that shows a `ThreadLocal`, given the text that shows what
    /// [`get`](ThreadLocal::get) returns.
    pub fn fmt(local_data: &str) -> (text: String)
        ensures
            text@ == "ThreadLocal { local_data: "@ + local_data@ + " }"@,
    {
        let mut text = String::from_str("ThreadLocal { local_data: ");
        text.append(local_data);
        text.append(" }");
        text
    }
}

impl<T: Send> Default for ThreadLocal<T> {
    fn default() -> (local: ThreadLocal<T>)
        ensures
            local.wf(),
            local@ == Map::<usize, T>::empty(),
            local.capacity() == 2,
            local.slots().len() == 1,
    {
        ThreadLocal::new()
    }
}

impl<T: Send + Default> ThreadLocal<T> {
    /// Returns the element for the thread with the given id, or creates a
    /// default one if it doesn't exist.
    pub fn get_or_default(&mut self, id: usize) -> (element: &T)
        requires
            old(self).wf(),
            !old(self)@.contains_key(id) ==> old(self).has_room_for(id) && T::default.requires(()),
        ensures
            final(self).wf(),
            ({
                ||| old(self).finds(id, *element, final(self))
                ||| old(self).adds(id, *element, final(self)) && T::default.ensures((), *element)
            }),
    {
        self.get_or(id, T::default)
    }
}

/// The value in an occupied slot, to be read and written.
fn value_mut<T>(lists: &mut Vec<List<T>>, level: usize, slot: usize) -> (value: &mut T)
    requires
        occupied(old(lists)@, level as int, slot as int),
    ensures
        *value == (old(lists)@[level as int].values@[slot as int]->0).1,
        same_but(old(lists)@, final(lists)@, level as int, slot as int),
        final(lists)@[level as int].values@[slot as int] == Some(
            ((old(lists)@[level as int].values@[slot as int]->0).0, *final(value)),
        ),
{
    &mut lists[level].values[slot].as_mut().unwrap().1
}

/// Mutable iterator over the contents of a `ThreadLocal`.
pub struct IterMut<'a, T: Send> {
    raw: RawIter,
    local: &'a mut ThreadLocal<T>,
}

impl<'a, T: Send> View for IterMut<'a, T> {
    type V = Seq<(usize, T)>;

    /// The values that are still to come, with their ids.
    closed spec fn view(&self) -> Seq<(usize, T)> {
        self.raw.ahead(self.local.lists@)
    }
}

impl<'a, T: Send> IterMut<'a, T> {
    /// The cursor belongs to the `ThreadLocal`, which is valid.
    pub closed spec fn wf(&self) -> bool {
        &&& self.local.wf()
        &&& self.raw.wf(self.local.lists@)
        &&& self.raw.remaining <= isize::MAX
    }

    /// The `ThreadLocal` that is iterated over.
    pub closed spec fn local(&self) -> &'a mut ThreadLocal<T> {
        self.local
    }

    /// A call of [`next`](IterMut::next) gives the first value that is still to
    /// come, `written` is what is in its place when the reference is gone, and the
    /// iterator is then `after`.
    pub open spec fn steps(&self, written: T, after: &Self) -> bool {
        &&& self@.len() > 0
        &&& after@ == self@.drop_first()
        &&& after.local()@ == self.local()@.insert(self@[0].0, written)
        &&& after.local().capacity() == self.local().capacity()
        &&& after.local().slots().len() == self.local().slots().len()
        &&& others_stay(self.local().slots(), self@[0].0, after.local().slots())
    }

    /// The next value. What is written through the reference becomes the value
    /// of its thread; the values of other threads stay as they are.
    pub fn next(&mut self) -> (element: Option<&mut T>)
        requires
            old(self).wf(),
        ensures
            final(self).wf(),
            *final(final(self).local()) == *final(old(self).local()),
            final(self).local().wf(),
            final(self).local().capacity() == old(self).local().capacity(),
            element is None <==> old(self)@.len() == 0,
            match element {
                Some(element) => {
                    &&& *element == old(self)@[0].1
                    &&& old(self).steps(*final(element), final(self))
                },
                None => {
                    &&& final(self)@ == old(self)@
                    &&& *final(self).local() == *old(self).local()
                },
            },
    {
        let ghost before = self.local.lists@;
        match self.raw.next(&self.local.lists) {
            Some((level, slot)) => {
                let ghost id = (before[level as int].values@[slot as int]->0).0;
                proof {
                    assert forall|after: Seq<List<T>>| #[trigger]
                        same_but(before, after, level as int, slot as int) && holds(
                            after,
                            level as int,
                            slot as int,
                            id,
                        ) implies {
                        &&& growing(after)
                        &&& unique(after)
                        &&& contents(after) == contents(before).insert(
                            id,
                            (after[level as int].values@[slot as int]->0).1,
                        )
                        &&& entries(after).len() == entries(before).len()
                        &&& self.raw.ahead(after) == self.raw.ahead(before)
                    } by {
                        assert(holds(before, level as int, slot as int, id));
                        lemma_overwrite(before, after, level as int, slot as int, id);
                        lemma_entries_agree(before, after, level as int, slot + 1);
                    }
                }
                Some(value_mut(&mut self.local.lists, level, slot))
            },
            None => None,
        }
    }

    /// The exact number of values that are still to come, twice.
    pub fn size_hint(&self) -> (hint: (usize, Option<usize>))
        requires
            self.wf(),
        ensures
            hint.0 == self@.len(),
            hint.0 <= isize::MAX,
            hint.1 == Some(hint.0),
    {
        self.raw.size_hint()
    }
}

/// An iterator that moves out of a `ThreadLocal`.
pub struct IntoIter<T: Send> {
    raw: RawIter,
    local: ThreadLocal<T>,
}

impl<T: Send> View for IntoIter<T> {
    type V = Seq<(usize, T)>;

    /// The values that are still to come, with their ids.
    closed spec fn view(&self) -> Seq<(usize, T)> {
        self.raw.ahead(self.local.lists@)
    }
}

impl<T: Send> IntoIter<T> {
    /// The cursor belongs to the lists.
    pub closed spec fn wf(&self) -> bool {
        &&& self.raw.wf(self.local.lists@)
        &&& self.raw.remaining <= isize::MAX
    }

    /// The next value.
    pub fn next(&mut self) -> (element: Option<T>)
        requires
            old(self).wf(),
        ensures
            final(self).wf(),
            element is None <==> old(self)@.len() == 0,
            match element {
                Some(element) => {
                    &&& element == old(self)@[0].1
                    &&& final(self)@ == old(self)@.drop_first()
                },
                None => final(self)@ == old(self)@,
            },
    {
        let ghost before = self.local.lists@;
        match self.raw.next(&self.local.lists) {
            Some((level, slot)) => {
                let element = self.local.lists[level].values[slot].take().unwrap().1;
                proof {
                    assert(same_but(before, self.local.lists@, level as int, slot as int));
                    lemma_entries_agree(before, self.local.lists@, level as int, slot + 1);
                }
                Some(element)
            },
            None => None,
        }
    }

    /// The exact number of values that are still to come, twice.
    pub fn size_hint(&self) -> (hint: (usize, Option<usize>))
        requires
            self.wf(),
        ensures
            hint.0 == self@.len(),
            hint.0 <= isize::MAX,
            hint.1 == Some(hint.0),
    {
        self.raw.size_hint()
    }
}

/// When nothing more is written through an iterator, nothing more is written
/// to its `ThreadLocal`.
pub broadcast proof fn lemma_iter_mut_resolved<'a, T: Send>(iter: IterMut<'a, T>)
    ensures
        #[trigger] has_resolved(iter) ==> has_resolved(iter.local()),
{
}

/// The iterators give every value exactly once: each thread that has a value
/// has one entry with that value, and there are no other entries.
pub proof fn law_iterates_every_value_once<T: Send>(local: ThreadLocal<T>)
    requires
        local.wf(),
    ensures
        local@.dom().finite(),
        local.entries().len() == local@.len(),
        forall|k: int|
            0 <= k < local.entries().len() ==> {
                &&& local@.contains_key((#[trigger] local.entries()[k]).0)
                &&& local@[local.entries()[k].0] == local.entries()[k].1
            },
        forall|id: usize| #[trigger]
            local@.contains_key(id) ==> local.entries().contains((id, local@[id])),
        forall|j: int, k: int|
            0 <= j < k < local.entries().len() ==> (#[trigger] local.entries()[j]).0 != (
            #[trigger] local.entries()[k]).0,
{
    lemma_entries_are_contents(local.lists@);
}

/// A value stays: after an access that gave the thread `id` a value, another
/// access by that thread finds the same value and creates none.
pub proof fn law_value_stays<T: Send>(
    before: ThreadLocal<T>,
    id: usize,
    first: T,
    between: ThreadLocal<T>,
    second: T,
    after: ThreadLocal<T>,
)
    requires
        before.finds(id, first, &between) || before.adds(id, first, &between),
        between.finds(id, second, &after) || between.adds(id, second, &after),
    ensures
        between.finds(id, second, &after),
        second == first,
        after@ == between@,
{
}

/// Threads are apart: an access by one thread neither changes nor removes nor
/// creates the value of another.
pub proof fn law_threads_are_apart<T: Send>(
    before: ThreadLocal<T>,
    id: usize,
    element: T,
    after: ThreadLocal<T>,
    other: usize,
)
    requires
        before.finds(id, element, &after) || before.adds(id, element, &after),
        other != id,
    ensures
        before@.contains_key(other) <==> after@.contains_key(other),
        before@.contains_key(other) ==> before@[other] == after@[other],
{
}

/// Whether an access by the thread `id` can lead from one state to another.
pub open spec fn accesses<T: Send>(
    before: ThreadLocal<T>,
    id: usize,
    after: ThreadLocal<T>,
) -> bool {
    ||| after == before
    ||| exists|element: T|
        before.finds(id, element, &after) || #[trigger] before.adds(id, element, &after)
}

/// If less than the capacity threads access it, or just as many, a `ThreadLocal`
/// never reallocates: whatever their ids are, and however many accesses lead from
/// the first state to the last, the capacity stays and no list is added. The
/// threads that have a value in the first state count too.
pub proof fn law_never_reallocates_within_capacity<T: Send>(
    states: Seq<ThreadLocal<T>>,
    ids: Seq<usize>,
)
    requires
        states.len() == ids.len() + 1,
        states[0].wf(),
        forall|k: int|
            0 <= k < ids.len() ==> accesses(states[k], #[trigger] ids[k], states[k + 1]),
        states[0]@.dom().union(ids.to_set()).len() <= states[0].capacity(),
    ensures
        states.last().capacity() == states[0].capacity(),
        states.last().slots().len() == states[0].slots().len(),
{
    law_iterates_every_value_once(states[0]);
    seq_to_set_is_finite(ids);
    lemma_never_reallocates(states, ids, states[0]@.dom().union(ids.to_set()));
}

/// Accesses by threads of a set that is no larger than the capacity do not
/// reallocate.
proof fn lemma_never_reallocates<T: Send>(
    states: Seq<ThreadLocal<T>>,
    ids: Seq<usize>,
    threads: Set<usize>,
)
    requires
        states.len() == ids.len() + 1,
        forall|k: int|
            0 <= k < ids.len() ==> accesses(states[k], #[trigger] ids[k], states[k + 1]),
        threads.finite(),
        threads.len() <= states[0].capacity(),
        states[0]@.dom().subset_of(threads),
        forall|k: int| 0 <= k < ids.len() ==> threads.contains(#[trigger] ids[k]),
    ensures
        states.last().capacity() == states[0].capacity(),
        states.last().slots().len() == states[0].slots().len(),
        states.last()@.dom().subset_of(threads),
    decreases ids.len(),
{
    if ids.len() > 0 {
        let last = ids.len() - 1;
        assert forall|k: int| 0 <= k < ids.drop_last().len() implies accesses(
            states.drop_last()[k],
            #[trigger] ids.drop_last()[k],
            states.drop_last()[k + 1],
        ) && threads.contains(ids.drop_last()[k]) by {
            assert(accesses(states[k], ids[k], states[k + 1]));
        }
        lemma_never_reallocates(states.drop_last(), ids.drop_last(), threads);
        let before = states[last];
        let id = ids[last];
        assert(accesses(before, id, states[last + 1]));
        assert(threads.contains(id));
        if !before@.contains_key(id) {
            lemma_len_subset(before@.dom().insert(id), threads);
        }
    }
}

/// Threads with ids below the capacity never make a `ThreadLocal` reallocate,
/// however many threads have had these ids one after the other.
pub proof fn law_never_reallocates_below_capacity<T: Send>(
    states: Seq<ThreadLocal<T>>,
    ids: Seq<usize>,
)
    requires
        states.len() == ids.len() + 1,
        states[0].wf(),
        forall|k: int|
            0 <= k < ids.len() ==> accesses(states[k], #[trigger] ids[k], states[k + 1]),
        forall|k: int| 0 <= k < ids.len() ==> (#[trigger] ids[k]) < states[0].capacity(),
        forall|id: usize| #[trigger]
            states[0]@.contains_key(id) ==> id < states[0].capacity(),
    ensures
        states.last().capacity() == states[0].capacity(),
        states.last().slots().len() == states[0].slots().len(),
{
    let capacity = states[0].capacity();
    let threads = states[0]@.dom().union(ids.to_set());
    let below = set_int_range(0, capacity);
    law_iterates_every_value_once(states[0]);
    seq_to_set_is_finite(ids);
    let numbers = threads.map(|id: usize| id as int);
    lemma_int_range(0, capacity);
    assert(numbers.subset_of(below));
    lemma_len_subset(numbers, below);
    lemma_map_size(threads, numbers, |id: usize| id as int);
    law_never_reallocates_within_capacity(states, ids);
}

/// Room for a value is made by doubling at least, and only when there are as many
/// values as slots: an access otherwise leaves the capacity as it is.
pub proof fn law_capacity_doubles<T: Send>(
    before: ThreadLocal<T>,
    id: usize,
    after: ThreadLocal<T>,
)
    requires
        before.wf(),
        accesses(before, id, after),
    ensures
        after.capacity() == before.capacity() || {
            &&& after.capacity() >= 2 * before.capacity()
            &&& after.capacity() > before.capacity()
            &&& before@.len() == before.capacity()
            &&& !before@.contains_key(id)
        },
{
    law_values_fit(before);
}

/// There is room for a value exactly if the newest list has an empty slot, or a list
/// of twice its length that also has a slot with the number of the id fits in a
/// vector.
pub proof fn law_room<T: Send>(local: ThreadLocal<T>, id: usize)
    requires
        local.wf(),
    ensures
        local@.len() < local.capacity() ==> local.has_room_for(id),
        id < isize::MAX && 2 * local.capacity() <= isize::MAX ==> local.has_room_for(id),
        local.has_room_for(id) ==> local@.len() < local.capacity() || {
            &&& id < isize::MAX
            &&& 2 * local.capacity() <= isize::MAX
        },
{
    law_values_fit(local);
}

/// A value that is added when there are as many values as slots gets a new list,
/// whose length is exactly the larger of twice that of the newest list and one more
/// than the id. A value that is added otherwise gets no new list.
pub proof fn law_growth<T: Send>(
    before: ThreadLocal<T>,
    id: usize,
    element: T,
    after: ThreadLocal<T>,
)
    requires
        before.wf(),
        before.adds(id, element, &after),
    ensures
        before@.len() < before.capacity() ==> {
            &&& after.capacity() == before.capacity()
            &&& after.slots().len() == before.slots().len()
        },
        before@.len() >= before.capacity() ==> {
            &&& after.capacity() >= 2 * before.capacity()
            &&& after.capacity() >= id + 1
            &&& after.capacity() == 2 * before.capacity() || after.capacity() == id + 1
            &&& after.slots().len() == before.slots().len() + 1
        },
{
}

/// There is a slot in the newest list for every value.
pub proof fn law_values_fit<T: Send>(local: ThreadLocal<T>)
    requires
        local.wf(),
    ensures
        local@.len() <= local.capacity() <= isize::MAX,
{
    lemma_entries_are_contents(local.lists@);
    assert(local.lists@[local.lists@.len() - 1].values@.len() <= isize::MAX);
}

/// The lists hold the values, each in one slot: a slot holds the value of its
/// thread, every value has a slot, and no thread has two. The last list is the
/// newest one, and each list is at least twice as long as an older one.
///
/// This holds also while values that are counted are in no list.
pub proof fn law_one_slot_for_each_value<T: Send>(local: ThreadLocal<T>, moving: int)
    requires
        local.wf_but(moving),
    ensures
        local.counted() == local@.len() + moving,
        local.counted() <= local.capacity(),
        local.slots().len() > 0,
        local.slots().last().len() == local.capacity(),
        forall|level: int, slot: int|
            0 <= level < local.slots().len() && 0 <= slot < local.slots()[level].len()
                && #[trigger] local.slots()[level][slot] is Some ==> {
                let (id, value) = local.slots()[level][slot]->0;
                local@.contains_key(id) && local@[id] == value
            },
        forall|id: usize| #[trigger]
            local@.contains_key(id) ==> exists|level: int, slot: int|
                {
                    &&& 0 <= level < local.slots().len()
                    &&& 0 <= slot < local.slots()[level].len()
                    &&& #[trigger] local.slots()[level][slot] == Some((id, local@[id]))
                },
        forall|a: int, s: int, b: int, t: int|
            {
                &&& 0 <= a < local.slots().len()
                &&& 0 <= s < local.slots()[a].len()
                &&& 0 <= b < local.slots().len()
                &&& 0 <= t < local.slots()[b].len()
                &&& #[trigger] local.slots()[a][s] is Some
                &&& #[trigger] local.slots()[b][t] is Some
                &&& (local.slots()[a][s]->0).0 == (local.slots()[b][t]->0).0
            } ==> a == b && s == t,
        forall|older: int, newer: int|
            0 <= older < newer < local.slots().len() ==> {
                &&& (#[trigger] local.slots()[older]).len() < (
                #[trigger] local.slots()[newer]).len()
                &&& 2 * local.slots()[older].len() <= local.slots()[newer].len()
            },
        forall|id: usize| #[trigger]
            local.in_newest(id) <==> exists|slot: int|
                {
                    &&& 0 <= slot < local.slots().last().len()
                    &&& #[trigger] local.slots().last()[slot] is Some
                    &&& (local.slots().last()[slot]->0).0 == id
                },
{
    let lists = local.lists@;
    lemma_entries_are_contents(lists);
    assert forall|level: int, slot: int|
        0 <= level < local.slots().len() && 0 <= slot < local.slots()[level].len()
            && #[trigger] local.slots()[level][slot] is Some implies {
        let (id, value) = local.slots()[level][slot]->0;
        local@.contains_key(id) && local@[id] == value
    } by {
        let id = (lists[level].values@[slot]->0).0;
        assert(holds(lists, level, slot, id));
        lemma_contents(lists, level, slot, id);
    }
    assert forall|id: usize| #[trigger] local@.contains_key(id) implies exists|
        level: int,
        slot: int,
    |
        {
            &&& 0 <= level < local.slots().len()
            &&& 0 <= slot < local.slots()[level].len()
            &&& #[trigger] local.slots()[level][slot] == Some((id, local@[id]))
        } by {
        let (level, slot) = choose|level: int, slot: int| holds(lists, level, slot, id);
        assert(holds(lists, level, slot, id));
        lemma_contents(lists, level, slot, id);
        assert(local.slots()[level][slot] == Some((id, local@[id])));
    }
    assert forall|a: int, s: int, b: int, t: int|
        {
            &&& 0 <= a < local.slots().len()
            &&& 0 <= s < local.slots()[a].len()
            &&& 0 <= b < local.slots().len()
            &&& 0 <= t < local.slots()[b].len()
            &&& #[trigger] local.slots()[a][s] is Some
            &&& #[trigger] local.slots()[b][t] is Some
            &&& (local.slots()[a][s]->0).0 == (local.slots()[b][t]->0).0
        } implies a == b && s == t by {
        let id = (local.slots()[a][s]->0).0;
        assert(holds(lists, a, s, id));
        assert(holds(lists, b, t, id));
    }
    assert forall|older: int, newer: int| 0 <= older < newer < local.slots().len() implies {
        &&& (#[trigger] local.slots()[older]).len() < (#[trigger] local.slots()[newer]).len()
        &&& 2 * local.slots()[older].len() <= local.slots()[newer].len()
    } by {
        assert(lists[older].values@.len() < lists[newer].values@.len());
    }
    assert forall|id: usize| #[trigger] local.in_newest(id) <==> exists|slot: int|
        {
            &&& 0 <= slot < local.slots().last().len()
            &&& #[trigger] local.slots().last()[slot] is Some
            &&& (local.slots().last()[slot]->0).0 == id
        } by {
        if local.in_newest(id) {
            let slot = choose|slot: int| newest_holds(lists, slot, id);
            assert(local.slots().last()[slot] is Some);
        }
        if exists|slot: int|
            {
                &&& 0 <= slot < local.slots().last().len()
                &&& #[trigger] local.slots().last()[slot] is Some
                &&& (local.slots().last()[slot]->0).0 == id
            } {
            let slot = choose|slot: int|
                {
                    &&& 0 <= slot < local.slots().last().len()
                    &&& #[trigger] local.slots().last()[slot] is Some
                    &&& (local.slots().last()[slot]->0).0 == id
                };
            assert(newest_holds(lists, slot, id));
        }
    }
}

/// A value outlives its thread: whoever has its id later finds the value and creates
/// none, whatever accesses there were in between.
pub proof fn law_value_outlives_thread<T: Send>(
    id: usize,
    states: Seq<ThreadLocal<T>>,
    ids: Seq<usize>,
    element: T,
    after: ThreadLocal<T>,
)
    requires
        states.len() == ids.len() + 1,
        states[0]@.contains_key(id),
        forall|k: int|
            0 <= k < ids.len() ==> accesses(states[k], #[trigger] ids[k], states[k + 1]),
        states.last().finds(id, element, &after) || states.last().adds(id, element, &after),
    ensures
        element == states[0]@[id],
        after@ == states.last()@,
{
    lemma_value_stays(id, states, ids);
}

/// A value stays in its slot, whatever accesses other threads make: what a thread
/// holds of its value remains where it is.
pub proof fn law_value_stays_in_place<T: Send>(
    id: usize,
    level: int,
    slot: int,
    states: Seq<ThreadLocal<T>>,
    ids: Seq<usize>,
)
    requires
        states.len() == ids.len() + 1,
        0 <= level < states[0].slots().len(),
        0 <= slot < states[0].slots()[level].len(),
        states[0].slots()[level][slot] is Some,
        (states[0].slots()[level][slot]->0).0 == id,
        forall|k: int|
            0 <= k < ids.len() ==> accesses(states[k], #[trigger] ids[k], states[k + 1]),
        forall|k: int| 0 <= k < ids.len() ==> #[trigger] ids[k] != id,
    ensures
        states[0].slots().len() <= states.last().slots().len(),
        states.last().slots()[level].len() == states[0].slots()[level].len(),
        states.last().slots()[level][slot] == states[0].slots()[level][slot],
    decreases ids.len(),
{
    if ids.len() > 0 {
        let last = ids.len() - 1;
        assert forall|k: int| 0 <= k < ids.drop_last().len() implies accesses(
            states.drop_last()[k],
            #[trigger] ids.drop_last()[k],
            states.drop_last()[k + 1],
        ) && ids.drop_last()[k] != id by {
            assert(accesses(states[k], ids[k], states[k + 1]));
        }
        law_value_stays_in_place(id, level, slot, states.drop_last(), ids.drop_last());
        assert(accesses(states[last], ids[last], states[last + 1]));
        assert(states[last].slots()[level][slot] is Some);
    }
}

/// No access by any thread changes or removes a value.
proof fn lemma_value_stays<T: Send>(id: usize, states: Seq<ThreadLocal<T>>, ids: Seq<usize>)
    requires
        states.len() == ids.len() + 1,
        states[0]@.contains_key(id),
        forall|k: int|
            0 <= k < ids.len() ==> accesses(states[k], #[trigger] ids[k], states[k + 1]),
    ensures
        states.last()@.contains_key(id),
        states.last()@[id] == states[0]@[id],
    decreases ids.len(),
{
    if ids.len() > 0 {
        let last = ids.len() - 1;
        assert forall|k: int| 0 <= k < ids.drop_last().len() implies accesses(
            states.drop_last()[k],
            #[trigger] ids.drop_last()[k],
            states.drop_last()[k + 1],
        ) by {
            assert(accesses(states[k], ids[k], states[k + 1]));
        }
        lemma_value_stays(id, states.drop_last(), ids.drop_last());
        assert(accesses(states[last], ids[last], states[last + 1]));
    }
}

/// What is written through an iterator is what the threads then have: no two
/// calls of `next` give the value of the same thread, each thread whose value was
/// given out has what was written in its place, and all other values are as they
/// were.
pub proof fn law_iter_mut_writes<'a, T: Send>(iters: Seq<IterMut<'a, T>>, written: Seq<T>)
    requires
        iters.len() == written.len() + 1,
        iters[0].local().wf(),
        iters[0]@ == iters[0].local().entries(),
        forall|k: int|
            0 <= k < written.len() ==> iters[k].steps(#[trigger] written[k], &iters[k + 1]),
    ensures
        written.len() <= iters[0]@.len(),
        forall|j: int, k: int|
            0 <= j < k < written.len() ==> (#[trigger] iters[0]@[j]).0 != (
            #[trigger] iters[0]@[k]).0,
        iters.last().local()@.dom() == iters[0].local()@.dom(),
        forall|k: int|
            0 <= k < written.len() ==> iters.last().local()@[iters[0]@[k].0]
                == #[trigger] written[k],
        forall|id: usize|
            iters[0].local()@.contains_key(id) && (forall|k: int|
                0 <= k < written.len() ==> (#[trigger] iters[0]@[k]).0 != id)
                ==> #[trigger] iters.last().local()@[id] == iters[0].local()@[id],
{
    law_iterates_every_value_once(*iters[0].local());
    lemma_iter_mut_writes(iters, written);
}

/// The writes through an iterator whose values belong to different threads.
proof fn lemma_iter_mut_writes<'a, T: Send>(iters: Seq<IterMut<'a, T>>, written: Seq<T>)
    requires
        iters.len() == written.len() + 1,
        forall|k: int|
            0 <= k < written.len() ==> iters[k].steps(#[trigger] written[k], &iters[k + 1]),
        forall|k: int|
            0 <= k < iters[0]@.len() ==> iters[0].local()@.contains_key(
                (#[trigger] iters[0]@[k]).0,
            ),
        forall|j: int, k: int|
            0 <= j < k < iters[0]@.len() ==> (#[trigger] iters[0]@[j]).0 != (
            #[trigger] iters[0]@[k]).0,
    ensures
        written.len() <= iters[0]@.len(),
        iters.last()@ == iters[0]@.skip(written.len() as int),
        iters.last().local()@.dom() == iters[0].local()@.dom(),
        forall|k: int|
            0 <= k < written.len() ==> iters.last().local()@[iters[0]@[k].0]
                == #[trigger] written[k],
        forall|id: usize|
            iters[0].local()@.contains_key(id) && (forall|k: int|
                0 <= k < written.len() ==> (#[trigger] iters[0]@[k]).0 != id)
                ==> #[trigger] iters.last().local()@[id] == iters[0].local()@[id],
    decreases written.len(),
{
    let all = iters[0]@;
    if written.len() == 0 {
        assert(all.skip(0) =~= all);
    } else {
        let last = written.len() - 1;
        let before = iters.drop_last();
        assert forall|k: int| 0 <= k < written.drop_last().len() implies before[k].steps(
            #[trigger] written.drop_last()[k],
            &before[k + 1],
        ) by {
            assert(iters[k].steps(written[k], &iters[k + 1]));
        }
        lemma_iter_mut_writes(before, written.drop_last());
        assert(iters[last].steps(written[last], &iters[last + 1]));
        assert(iters[last]@ == all.skip(last));
        assert(all.skip(last).drop_first() =~= all.skip(last + 1));
        assert(iters[last]@[0] == all[last]);
        assert(iters.last().local()@.dom() =~= iters[0].local()@.dom());
        assert forall|k: int| 0 <= k < written.len() implies iters.last().local()@[all[k].0]
            == #[trigger] written[k] by {
            if k < last {
                assert(before.last().local()@[all[k].0] == written.drop_last()[k]);
                assert(all[k].0 != all[last].0);
            }
        }
        assert forall|id: usize|
            iters[0].local()@.contains_key(id) && (forall|k: int|
                0 <= k < written.len() ==> (#[trigger] all[k]).0 != id) implies
            #[trigger] iters.last().local()@[id] == iters[0].local()@[id] by {
            assert(all[last].0 != id);
            assert(before.last().local()@[id] == iters[0].local()@[id]);
        }
    }
}

} // verus!
