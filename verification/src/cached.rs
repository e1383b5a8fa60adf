//! A thread-local object with a fast path for the first thread that writes
//! into it.

use crate::local::{
    grown_capacity, law_iter_mut_writes, law_iterates_every_value_once, law_values_fit, others_stay,
    IntoIter, IterMut, ThreadLocal,
};
use vstd::prelude::*;

verus! {

/// Wrapper around `ThreadLocal` which adds a fast path for a single thread.
///
/// This has the same API as `ThreadLocal`, but will register the first thread
/// that sets a value as its owner. All accesses by the owner go through a
/// special fast path which is much faster than the normal `ThreadLocal` path.
pub struct CachedThreadLocal<T: Send> {
    /// The id of the first thread that set a value.
    owner: Option<usize>,
    /// The value of the owner.
    local: Option<T>,
    /// The values of all other threads.
    global: ThreadLocal<T>,
}

impl<T: Send> View for CachedThreadLocal<T> {
    type V = Map<usize, T>;

    /// The values, by the id of the thread that they belong to.
    closed spec fn view(&self) -> Map<usize, T> {
        match (self.owner, self.local) {
            (Some(owner), Some(value)) => self.global@.insert(owner, value),
            _ => self.global@,
        }
    }
}

impl<T: Send> CachedThreadLocal<T> {
    /// There is a value of the owner exactly if there is an owner; the other
    /// values are those of other threads, and came later.
    pub closed spec fn wf(&self) -> bool {
        &&& self.global.wf()
        &&& match self.owner {
            Some(owner) => self.local is Some && !self.global@.contains_key(owner),
            None => self.local is None && self.global@ == Map::<usize, T>::empty(),
        }
    }

    /// The first thread that set a value.
    pub closed spec fn owner(&self) -> Option<usize> {
        self.owner
    }

    /// The number of threads besides the owner that can have a value without
    /// another list.
    pub closed spec fn capacity(&self) -> int {
        self.global.capacity()
    }

    /// The slots of the lists that hold the values of all threads but the owner,
    /// oldest list first.
    pub closed spec fn slots(&self) -> Seq<Seq<Option<(usize, T)>>> {
        self.global.slots()
    }

    /// The values with their ids, in the order in which the iterators give them:
    /// that of the owner comes first.
    pub closed spec fn entries(&self) -> Seq<(usize, T)> {
        match (self.owner, self.local) {
            (Some(owner), Some(value)) => seq![(owner, value)] + self.global.entries(),
            _ => self.global.entries(),
        }
    }

    /// Whether a value can be added for `id`: a list that has to be added for it is
    /// not too long for a vector. The owner needs no room in a list.
    pub open spec fn has_room_for(&self, id: usize) -> bool {
        self.owner() is Some ==> grown_capacity(self.capacity(), self@.len() - 1, id as int)
            <= isize::MAX
    }

    /// An access that changes no value and adds no list leaves `after`.
    pub open spec fn unchanged(&self, after: &Self) -> bool {
        &&& after@ == self@
        &&& after.owner() == self.owner()
        &&& after.capacity() == self.capacity()
        &&& after.slots().len() == self.slots().len()
    }

    /// An access by the thread `id`, which has a value, gives that value and
    /// leaves `after`. Nothing changes if that is the owner.
    pub open spec fn finds(&self, id: usize, element: T, after: &Self) -> bool {
        &&& self@.contains_key(id)
        &&& element == self@[id]
        &&& self.unchanged(after)
        &&& self.owner() == Some(id) ==> *after == *self
        &&& others_stay(self.slots(), id, after.slots())
    }

    /// An access by the thread `id`, which has no value, adds one and leaves
    /// `after`. The first thread becomes the owner.
    pub open spec fn adds(&self, id: usize, element: T, after: &Self) -> bool {
        &&& !self@.contains_key(id)
        &&& after@ == self@.insert(id, element)
        &&& others_stay(self.slots(), id, after.slots())
        &&& match self.owner() {
            Some(owner) => {
                &&& after.owner() == Some(owner)
                &&& after.capacity() == grown_capacity(
                    self.capacity(),
                    self@.len() - 1,
                    id as int,
                )
                &&& after.slots().len() == self.slots().len() + (if self@.len() - 1
                    < self.capacity() {
                    0int
                } else {
                    1int
                })
            },
            None => {
                &&& after.owner() == Some(id)
                &&& after.capacity() == self.capacity()
                &&& after.slots() == self.slots()
            },
        }
    }

    /// Creates a new empty `CachedThreadLocal`.
    pub fn new() -> (local: CachedThreadLocal<T>)
        ensures
            local.wf(),
            local@ == Map::<usize, T>::empty(),
            local.owner() is None,
            local.capacity() == 2,
            local.slots().len() == 1,
    {
        CachedThreadLocal { owner: None, local: None, global: ThreadLocal::new() }
    }

    /// Whether an element can be created for the thread with the given id: a list
    /// that has to be added for it must not be too long for a vector.
    pub fn has_room(&self, id: usize) -> (room: bool)
        requires
            self.wf(),
        ensures
            room == self.has_room_for(id),
    {
        proof {
            law_iterates_every_value_once(self.global);
        }
        self.owner.is_none() || self.global.has_room(id)
    }

    /// Returns the element for the current thread, if it exists.
    ///
    /// `current` is the id of the current thread. A thread that was not given
    /// an id has no element, and is not given one here.
    pub fn get(&mut self, current: Option<usize>) -> (element: Option<&T>)
        requires
            old(self).wf(),
        ensures
            final(self).wf(),
            match (current, element) {
                (Some(id), Some(element)) => old(self).finds(id, *element, final(self)),
                (Some(id), None) => !old(self)@.contains_key(id) && *final(self) == *old(self),
                (None, element) => element is None && *final(self) == *old(self),
            },
    {
        match (self.owner, current) {
            (Some(owner), Some(id)) => if id == owner {
                self.local.as_ref()
            } else {
                self.global.get_fast(id)
            },
            _ => None,
        }
    }

    /// Returns the element for the thread with the given id, or creates it if
    /// it doesn't exist. If `create` fails, that error is returned and no
    /// element is added.
    pub fn get_or_try<F, E>(&mut self, id: usize, create: F) -> (element: Result<&T, E>) where
        F: FnOnce() -> Result<T, E>,

        requires
            old(self).wf(),
            !old(self)@.contains_key(id) ==> {
                &&& create.requires(())
                &&& forall|data: T|
                    create.ensures((), Ok::<T, E>(data)) ==> old(self).has_room_for(id)
            },
        ensures
            final(self).wf(),
            match element {
                Ok(element) => {
                    ||| old(self).finds(id, *element, final(self))
                    ||| old(self).adds(id, *element, final(self)) && create.ensures(
                        (),
                        Ok(*element),
                    )
                },
                Err(error) => {
                    &&& !old(self)@.contains_key(id)
                    &&& create.ensures((), Err(error))
                    &&& *final(self) == *old(self)
                },
            },
    {
        match self.owner {
            Some(owner) => if id == owner {
                Ok(self.local.as_ref().unwrap())
            } else {
                proof {
                    law_iterates_every_value_once(self.global);
                    assert forall|value: T| #[trigger]
                        self.global@.insert(id, value).insert(owner, self.local->0)
                            == self.global@.insert(owner, self.local->0).insert(id, value) by {
                        assert(self.global@.insert(id, value).insert(owner, self.local->0)
                            =~= self.global@.insert(owner, self.local->0).insert(id, value));
                    }
                }
                self.global.get_or_try(id, create)
            },
            None => match create() {
                Ok(data) => {
                    self.owner = Some(id);
                    self.local = Some(data);
                    Ok(self.local.as_ref().unwrap())
                },
                Err(error) => Err(error),
            },
        }
    }

    /// Returns the element for the thread with the given id, or creates it if
    /// it doesn't exist.
    pub fn get_or<F>(&mut self, id: usize, create: F) -> (element: &T) where F: FnOnce() -> T
        requires
            old(self).wf(),
            !old(self)@.contains_key(id) ==> old(self).has_room_for(id) && create.requires(()),
        ensures
            final(self).wf(),
            ({
                ||| old(self).finds(id, *element, final(self))
                ||| old(self).adds(id, *element, final(self)) && create.ensures((), *element)
            }),
    {
        let create = move || -> (created: Result<T, ()>)
            requires
                create.requires(()),
            ensures
                created is Ok,
                create.ensures((), created->Ok_0),
            { Ok(create()) };
        self.get_or_try(id, create).unwrap()
    }

    /// Returns a mutable iterator over the local values of all threads in
    /// unspecified order.
    ///
    /// Since this call borrows the `CachedThreadLocal` mutably, this operation
    /// can be done safely---the mutable borrow statically guarantees no other
    /// threads are currently accessing their associated values.
    pub fn iter_mut(&mut self) -> (iter: CachedIterMut<'_, T>)
        requires
            old(self).wf(),
        ensures
            iter.wf(),
            iter@ == old(self).entries(),
            iter.owner() == old(self).owner(),
            iter.pending() is Some <==> old(self).owner() is Some,
            iter.rest().local().wf(),
            iter.rest()@ == iter.rest().local().entries(),
            final(self).owner() == old(self).owner(),
            match iter.pending() {
                Some(value) => {
                    &&& old(self)@ == iter.rest().local()@.insert(iter.owner()->0, *value)
                    &&& final(self)@ == final(iter.rest().local())@.insert(
                        iter.owner()->0,
                        *final(value),
                    )
                },
                None => {
                    &&& old(self)@ == iter.rest().local()@
                    &&& final(self)@ == final(iter.rest().local())@
                },
            },
            final(self).capacity() == final(iter.rest().local()).capacity(),
            final(iter.rest().local()).wf() && final(iter.rest().local())@.dom()
                == iter.rest().local()@.dom() ==> final(self).wf(),
    {
        proof {
            assert forall|after: Map<usize, T>| #[trigger] after.dom() == Map::<
                usize,
                T,
            >::empty().dom() implies after == Map::<usize, T>::empty() by {
                assert(after =~= Map::<usize, T>::empty());
            }
        }
        CachedIterMut {
            owner: self.owner,
            pending: self.local.as_mut(),
            rest: self.global.iter_mut(),
        }
    }

    /// Returns an iterator that moves the local values of all threads out, in
    /// unspecified order.
    pub fn into_iter(self) -> (iter: CachedIntoIter<T>)
        requires
            self.wf(),
        ensures
            iter.wf(),
            iter@ == self.entries(),
    {
        CachedIntoIter { owner: self.owner, pending: self.local, rest: self.global.into_iter() }
    }

    /// Removes all thread-specific values from the `CachedThreadLocal`,
    /// effectively reseting it to its original state.
    ///
    /// Since this call borrows the `CachedThreadLocal` mutably, this operation
    /// can be done safely---the mutable borrow statically guarantees no other
    /// threads are currently accessing their associated values.
    pub fn clear(&mut self)
        ensures
            final(self).wf(),
            final(self)@ == Map::<usize, T>::empty(),
            final(self).owner() is None,
            final(self).capacity() == 2,
            final(self).slots().len() == 1,
    {
        *self = CachedThreadLocal::new();
    }

    /// The text that shows a `CachedThreadLocal`, given the text that shows what
    /// [`get`](CachedThreadLocal::get) returns. It is that of a `ThreadLocal`.
    pub fn fmt(local_data: &str) -> (text: String)
        ensures
            text@ == "ThreadLocal { local_data: "@ + local_data@ + " }"@,
    {
        ThreadLocal::<T>::fmt(local_data)
    }
}

impl<T: Send> Default for CachedThreadLocal<T> {
    fn default() -> (local: CachedThreadLocal<T>)
        ensures
            local.wf(),
            local@ == Map::<usize, T>::empty(),
            local.owner() is None,
            local.capacity() == 2,
            local.slots().len() == 1,
    {
        CachedThreadLocal::new()
    }
}

impl<T: Send + Default> CachedThreadLocal<T> {
    /// Returns the element for the thread with the given id, or creates a
    /// default one if it doesn't exist.
    pub fn get_or_default(&mut self, id: usize) -> (element: &T)
        requires
            old(self).wf(),
            !old(self)@.contains_key(id) ==> old(self).has_room_for(id) && T::default.requires(()),
        ensures
            final(self).wf(),
            ({
                ||| old(self).finds(id, *element, final(self))
                ||| old(self).adds(id, *element, final(self)) && T::default.ensures((), *element)
            }),
    {
        self.get_or(id, T::default)
    }
}

/// Mutable iterator over the contents of a `CachedThreadLocal`.
pub struct CachedIterMut<'a, T: Send> {
    owner: Option<usize>,
    pending: Option<&'a mut T>,
    rest: IterMut<'a, T>,
}

impl<'a, T: Send> View for CachedIterMut<'a, T> {
    type V = Seq<(usize, T)>;

    /// The values that are still to come, with their ids.
    closed spec fn view(&self) -> Seq<(usize, T)> {
        match self.pending {
            Some(value) => seq![(self.owner->0, *value)] + self.rest@,
            None => self.rest@,
        }
    }
}

impl<'a, T: Send> CachedIterMut<'a, T> {
    /// The iterator over the values of other threads is valid, and a value that
    /// is still to come has an owner.
    pub closed spec fn wf(&self) -> bool {
        &&& self.rest.wf()
        &&& self.pending is Some ==> self.owner is Some
    }

    /// The first thread that set a value.
    pub closed spec fn owner(&self) -> Option<usize> {
        self.owner
    }

    /// The value of the owner, as long as it is still to come.
    pub closed spec fn pending(&self) -> Option<&'a mut T> {
        self.pending
    }

    /// The iterator over the values of the other threads.
    pub closed spec fn rest(&self) -> IterMut<'a, T> {
        self.rest
    }

    /// A call of [`next`](CachedIterMut::next) gives the first value that is still
    /// to come, `written` is what is in its place when the reference is gone, and
    /// the iterator is then `after`.
    pub open spec fn steps(&self, written: T, after: &Self) -> bool {
        &&& self@.len() > 0
        &&& after@ == self@.drop_first()
        &&& after.owner() == self.owner()
        &&& after.pending() is None
        &&& match self.pending() {
            Some(_) => after.rest() == self.rest(),
            None => self.rest().steps(written, &after.rest()),
        }
    }

    /// The next value: that of the owner first, then those of the other threads.
    pub fn next(&mut self) -> (element: Option<&mut T>)
        requires
            old(self).wf(),
        ensures
            final(self).wf(),
            final(self).owner() == old(self).owner(),
            final(self).pending() is None,
            *final(final(self).rest().local()) == *final(old(self).rest().local()),
            final(self).rest().local().capacity() == old(self).rest().local().capacity(),
            element is None <==> old(self)@.len() == 0,
            match element {
                Some(element) => {
                    &&& *element == old(self)@[0].1
                    &&& old(self).steps(*final(element), final(self))
                    &&& match old(self).pending() {
                        Some(value) => *final(element) == *final(value),
                        None => final(self).rest().local().wf(),
                    }
                },
                None => {
                    &&& final(self)@ == old(self)@
                    &&& *final(self).rest().local() == *old(self).rest().local()
                },
            },
    {
        match self.pending.take() {
            Some(value) => {
                assert(old(self)@.drop_first() =~= old(self).rest@);
                Some(value)
            },
            None => self.rest.next(),
        }
    }

    /// The exact number of values that are still to come, twice.
    pub fn size_hint(&self) -> (hint: (usize, Option<usize>))
        requires
            self.wf(),
        ensures
            hint.0 == self@.len(),
            hint.1 == Some(hint.0),
    {
        let (rest, _) = self.rest.size_hint();
        let len: usize = if self.pending.is_some() {
            rest + 1
        } else {
            rest
        };
        (len, Some(len))
    }
}

/// An iterator that moves out of a `CachedThreadLocal`.
pub struct CachedIntoIter<T: Send> {
    owner: Option<usize>,
    pending: Option<T>,
    rest: IntoIter<T>,
}

impl<T: Send> View for CachedIntoIter<T> {
    type V = Seq<(usize, T)>;

    /// The values that are still to come, with their ids.
    closed spec fn view(&self) -> Seq<(usize, T)> {
        match self.pending {
            Some(value) => seq![(self.owner->0, value)] + self.rest@,
            None => self.rest@,
        }
    }
}

impl<T: Send> CachedIntoIter<T> {
    /// The iterator over the values of other threads is valid.
    pub closed spec fn wf(&self) -> bool {
        self.rest.wf()
    }

    /// The next value: that of the owner first, then those of the other threads.
    pub fn next(&mut self) -> (element: Option<T>)
        requires
            old(self).wf(),
        ensures
            final(self).wf(),
            element is None <==> old(self)@.len() == 0,
            match element {
                Some(element) => {
                    &&& element == old(self)@[0].1
                    &&& final(self)@ == old(self)@.drop_first()
                },
                None => final(self)@ == old(self)@,
            },
    {
        match self.pending.take() {
            Some(value) => {
                assert(old(self)@.drop_first() =~= old(self).rest@);
                Some(value)
            },
            None => self.rest.next(),
        }
    }

    /// The exact number of values that are still to come, twice.
    pub fn size_hint(&self) -> (hint: (usize, Option<usize>))
        requires
            self.wf(),
        ensures
            hint.0 == self@.len(),
            hint.1 == Some(hint.0),
    {
        let (rest, _) = self.rest.size_hint();
        let len: usize = if self.pending.is_some() {
            rest + 1
        } else {
            rest
        };
        (len, Some(len))
    }
}

/// When nothing more is written through an iterator, nothing more is written
/// to its `CachedThreadLocal`.
pub broadcast proof fn lemma_cached_iter_mut_resolved<'a, T: Send>(iter: CachedIterMut<'a, T>)
    ensures
        #[trigger] has_resolved(iter) ==> {
            &&& has_resolved(iter.rest().local())
            &&& iter.pending() matches Some(value) ==> has_resolved(value)
        },
{
    broadcast use crate::local::lemma_iter_mut_resolved;

}

/// The iterators give every value exactly once: each thread that has a value
/// has one entry with that value, and there are no other entries.
pub proof fn law_cached_iterates_every_value_once<T: Send>(local: CachedThreadLocal<T>)
    requires
        local.wf(),
    ensures
        local@.dom().finite(),
        local.entries().len() == local@.len(),
        forall|k: int|
            0 <= k < local.entries().len() ==> {
                &&& local@.contains_key((#[trigger] local.entries()[k]).0)
                &&& local@[local.entries()[k].0] == local.entries()[k].1
            },
        forall|id: usize| #[trigger]
            local@.contains_key(id) ==> local.entries().contains((id, local@[id])),
        forall|j: int, k: int|
            0 <= j < k < local.entries().len() ==> (#[trigger] local.entries()[j]).0 != (
            #[trigger] local.entries()[k]).0,
{
    law_iterates_every_value_once(local.global);
    let all = local.entries();
    let rest = local.global.entries();
    if local.owner is Some {
        let owner = local.owner->0;
        assert forall|k: int| 0 < k < all.len() implies #[trigger] all[k] == rest[k - 1] by {}
        assert forall|id: usize| #[trigger] local@.contains_key(id) implies all.contains(
            (id, local@[id]),
        ) by {
            if id == owner {
                assert(all[0] == (id, local@[id]));
            } else {
                assert(local.global@.contains_key(id));
                let k = choose|k: int| 0 <= k < rest.len() && rest[k] == (id, local@[id]);
                assert(all[k + 1] == (id, local@[id]));
            }
        }
        assert forall|j: int, k: int| 0 <= j < k < all.len() implies (#[trigger] all[j]).0 != (
        #[trigger] all[k]).0 by {
            assert(local.global@.contains_key(rest[k - 1].0));
        }
    } else {
        assert(all == rest);
    }
}

/// What is written through an iterator is what the threads then have: no two
/// calls of `next` give the value of the same thread, each thread whose value was
/// given out has what was written in its place, and all other values are as they
/// were.
///
/// `owned` is what is in the place of the owner when the iterator is gone: what
/// was written through the first reference, or the value as it was if there was
/// none. `after` are the values that are there then.
pub proof fn law_cached_iter_mut_writes<'a, T: Send>(
    before: CachedThreadLocal<T>,
    iters: Seq<CachedIterMut<'a, T>>,
    written: Seq<T>,
    owned: T,
    after: Map<usize, T>,
)
    requires
        before.wf(),
        iters.len() == written.len() + 1,
        iters[0]@ == before.entries(),
        iters[0].owner() == before.owner(),
        iters[0].pending() is Some <==> before.owner() is Some,
        iters[0].rest().local().wf(),
        iters[0].rest()@ == iters[0].rest().local().entries(),
        forall|k: int|
            0 <= k < written.len() ==> iters[k].steps(#[trigger] written[k], &iters[k + 1]),
        match iters[0].pending() {
            Some(value) => {
                &&& before@ == iters[0].rest().local()@.insert(iters[0].owner()->0, *value)
                &&& after == iters.last().rest().local()@.insert(iters[0].owner()->0, owned)
                &&& owned == if written.len() > 0 {
                    written[0]
                } else {
                    *value
                }
            },
            None => {
                &&& before@ == iters[0].rest().local()@
                &&& after == iters.last().rest().local()@
            },
        },
    ensures
        written.len() <= before.entries().len(),
        forall|j: int, k: int|
            0 <= j < k < written.len() ==> (#[trigger] before.entries()[j]).0 != (
            #[trigger] before.entries()[k]).0,
        after.dom() == before@.dom(),
        forall|k: int|
            0 <= k < written.len() ==> after[before.entries()[k].0] == #[trigger] written[k],
        forall|id: usize|
            before@.contains_key(id) && (forall|k: int|
                0 <= k < written.len() ==> (#[trigger] before.entries()[k]).0 != id)
                ==> #[trigger] after[id] == before@[id],
{
    law_cached_iterates_every_value_once(before);
    let all = before.entries();
    let first: int = if iters[0].pending() is Some && written.len() > 0 {
        1
    } else {
        0
    };
    let rests = Seq::new((iters.len() - first) as nat, |k: int| iters[k + first].rest());
    let rest_written = written.skip(first);
    if first == 1 {
        assert(iters[0].steps(written[0], &iters[1]));
    }
    assert forall|k: int| 0 <= k < rest_written.len() implies rests[k].steps(
        #[trigger] rest_written[k],
        &rests[k + 1],
    ) && iters[k + first].pending() is None by {
        if k + first > 0 {
            let previous = k + first - 1;
            assert(iters[previous].steps(written[previous], &iters[previous + 1]));
        }
        assert(iters[k + first].steps(written[k + first], &iters[k + first + 1]));
    }
    law_iter_mut_writes(rests, rest_written);
    assert(rests.last() == iters.last().rest());
    let rest = iters[0].rest()@;
    assert(rests[0]@ == rest);
    if iters[0].pending() is Some {
        assert(all =~= seq![(iters[0].owner()->0, *iters[0].pending()->0)] + rest);
    }
    assert forall|k: int| 0 <= k < written.len() implies after[all[k].0]
        == #[trigger] written[k] by {
        if k >= first {
            assert(rest_written[k - first] == written[k]);
            assert(all[k] == rest[k - first]);
            if first == 1 {
                assert(all[0].0 != all[k].0);
            }
        }
    }
    assert forall|id: usize|
        before@.contains_key(id) && (forall|k: int|
            0 <= k < written.len() ==> (#[trigger] all[k]).0 != id) implies #[trigger] after[id]
        == before@[id] by {
        assert forall|k: int| 0 <= k < rest_written.len() implies (#[trigger] rest[k]).0
            != id by {
            assert(all[k + first] == rest[k]);
        }
        if first == 1 {
            assert(all[0].0 != id);
        }
    }
    assert(after.dom() =~= before@.dom());
}

/// There is room for a value exactly if there is no owner yet, the newest list has an
/// empty slot, or a list of twice its length that also has a slot with the number of
/// the id fits in a vector.
pub proof fn law_cached_room<T: Send>(local: CachedThreadLocal<T>, id: usize)
    requires
        local.wf(),
    ensures
        local.owner() is None ==> local.has_room_for(id),
        local@.len() <= local.capacity() ==> local.has_room_for(id),
        id < isize::MAX && 2 * local.capacity() <= isize::MAX ==> local.has_room_for(id),
        local.has_room_for(id) ==> local.owner() is None || local@.len() <= local.capacity() || {
            &&& id < isize::MAX
            &&& 2 * local.capacity() <= isize::MAX
        },
{
    law_cached_iterates_every_value_once(local);
    law_iterates_every_value_once(local.global);
    law_values_fit(local.global);
}

/// The first value that is added makes its thread the owner and needs no slot. Any
/// other gets a new list exactly if the others fill the newest one, whose length is
/// then the larger of twice that of the newest list and one more than the id.
pub proof fn law_cached_growth<T: Send>(
    before: CachedThreadLocal<T>,
    id: usize,
    element: T,
    after: CachedThreadLocal<T>,
)
    requires
        before.wf(),
        before.adds(id, element, &after),
    ensures
        after.owner() == if before@.len() == 0 {
            Some(id)
        } else {
            before.owner()
        },
        before@.len() <= before.capacity() ==> {
            &&& after.capacity() == before.capacity()
            &&& after.slots().len() == before.slots().len()
        },
        before@.len() > before.capacity() ==> {
            &&& after.capacity() >= 2 * before.capacity()
            &&& after.capacity() >= id + 1
            &&& after.capacity() == 2 * before.capacity() || after.capacity() == id + 1
            &&& after.slots().len() == before.slots().len() + 1
        },
{
    law_iterates_every_value_once(before.global);
    law_values_fit(before.global);
    if before.owner() is None {
        assert(before@.len() == 0);
    } else {
        assert(before@.contains_key(before.owner->0));
        assert(before@.len() > 0) by {
            law_cached_iterates_every_value_once(before);
            assert(before.entries().len() > 0);
        }
    }
}

/// The fast path shows nowhere: an access to a `CachedThreadLocal` gives the
/// same element and leaves the same values as one to a `ThreadLocal` that holds
/// the same values.
pub proof fn law_cached_as_plain<T: Send>(
    cached: CachedThreadLocal<T>,
    plain: ThreadLocal<T>,
    id: usize,
    cached_element: T,
    plain_element: T,
    cached_after: CachedThreadLocal<T>,
    plain_after: ThreadLocal<T>,
)
    requires
        cached@ == plain@,
        cached.finds(id, cached_element, &cached_after) || cached.adds(
            id,
            cached_element,
            &cached_after,
        ),
        plain.finds(id, plain_element, &plain_after) || plain.adds(
            id,
            plain_element,
            &plain_after,
        ),
        !plain@.contains_key(id) ==> cached_element == plain_element,
    ensures
        cached_element == plain_element,
        cached_after@ == plain_after@,
{
}

} // verus!
