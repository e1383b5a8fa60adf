//! Allocation of thread ids.
//!
//! A thread that holds an id has a claim to it. There is no other way to a claim
//! than to be given the id, a claim cannot be copied, and giving the id back uses it
//! up. A manager that is shared between threads keeps to its claims: the ids in use
//! are those that somebody has a claim to.

use crate::mutex::LockInvariant;
use vstd::multiset::Multiset;
use vstd::prelude::*;

verus! {

broadcast use vstd::multiset::group_multiset_axioms;

/// Thread ID manager which allocates thread IDs. It attempts to aggressively
/// reuse thread IDs where possible to avoid cases where a ThreadLocal grows
/// indefinitely when it is used by many short-lived threads.
pub struct ThreadIdManager {
    /// Every id from here on has never been allocated.
    free_from: usize,
    /// The ids that were given back, in descending order: the last one is the
    /// smallest.
    free_list: Vec<usize>,
    /// Tells this manager from others.
    name: Ghost<int>,
    /// The ids that were given out with a claim and not given back with it.
    claimed: Ghost<Multiset<usize>>,
}

/// The right to an id that a manager gave out. It cannot be made or copied
/// elsewhere.
pub struct Claim {
    id: usize,
    manager: Ghost<int>,
}

impl Claim {
    /// The id.
    pub closed spec fn id(&self) -> usize {
        self.id
    }

    /// The name of the manager that gave the id out.
    pub closed spec fn manager(&self) -> int {
        self.manager@
    }

    /// Returns the id.
    pub fn get(&self) -> (id: usize)
        ensures
            id == self.id(),
    {
        self.id
    }
}

impl ThreadIdManager {
    /// The smallest id that was never allocated.
    pub closed spec fn free_from(&self) -> usize {
        self.free_from
    }

    /// The ids that were given back and not allocated again.
    pub closed spec fn free_list(&self) -> Multiset<usize> {
        self.free_list@.to_multiset()
    }

    /// The name of the manager. Nothing is known of it but that it stays, so two
    /// managers that are made apart cannot be taken for the same.
    pub closed spec fn name(&self) -> int {
        self.name@
    }

    /// The ids that were given out with a claim and not given back with it.
    pub closed spec fn claimed(&self) -> Multiset<usize> {
        self.claimed@
    }

    /// Whether there is one claim to each id in use, and none to another id.
    pub open spec fn settled(&self) -> bool {
        forall|id: usize| #[trigger]
            self.claimed().count(id) == if self.in_use().contains(id) {
                1nat
            } else {
                0nat
            }
    }

    /// The representation invariant: the free list is sorted.
    pub closed spec fn wf(&self) -> bool {
        forall|i: int, j: int|
            0 <= i <= j < self.free_list@.len() ==> self.free_list@[i] >= self.free_list@[j]
    }

    /// Whether every id on the free list was once allocated and is there only
    /// once. This holds as long as only ids in use are given back.
    pub open spec fn balanced(&self) -> bool {
        &&& forall|id: usize| #[trigger]
            self.free_list().contains(id) ==> id < self.free_from()
        &&& forall|id: usize| #[trigger] self.free_list().count(id) <= 1
    }

    /// Whether every id on the free list has a place. This holds as long as only
    /// ids of threads are given back.
    pub open spec fn placeable(&self) -> bool {
        forall|id: usize| #[trigger] self.free_list().contains(id) ==> id < usize::MAX
    }

    /// The ids that were allocated and not given back.
    pub open spec fn in_use(&self) -> Set<usize> {
        Set::new(|id: usize| id < self.free_from() && !self.free_list().contains(id))
    }

    /// Whether there is an id left to allocate.
    pub open spec fn has_free(&self) -> bool {
        self.free_list().len() > 0 || self.free_from() < usize::MAX
    }

    /// Taking `id` out of `self` leaves `after`: the smallest id on the free
    /// list if there is any, else the smallest one that was never allocated.
    pub open spec fn allocates(&self, id: usize, after: &Self) -> bool {
        if self.free_list().len() > 0 {
            &&& self.free_list().contains(id)
            &&& forall|other: usize| #[trigger]
                self.free_list().contains(other) ==> id <= other
            &&& after.free_list() == self.free_list().remove(id)
            &&& after.free_from() == self.free_from()
        } else {
            &&& id == self.free_from()
            &&& after.free_list() == self.free_list()
            &&& after.free_from() == self.free_from() + 1
        }
    }

    /// Giving `id` back to `self` leaves `after`.
    pub open spec fn frees(&self, id: usize, after: &Self) -> bool {
        &&& after.free_list() == self.free_list().insert(id)
        &&& after.free_from() == self.free_from()
    }

    /// A manager that has not allocated any id.
    pub fn new() -> (manager: Self)
        ensures
            manager.wf(),
            manager.balanced(),
            manager.free_from() == 0,
            manager.free_list() == Multiset::<usize>::empty(),
            manager.in_use() == Set::<usize>::empty(),
            manager.claimed() == Multiset::<usize>::empty(),
            manager.settled(),
    {
        let manager = Self {
            free_from: 0,
            free_list: Vec::new(),
            name: Ghost(arbitrary()),
            claimed: Ghost(Multiset::empty()),
        };
        proof {
            manager.free_list@.to_multiset_ensures();
            assert(manager.free_list() =~= Multiset::<usize>::empty());
            assert(manager.in_use() =~= Set::<usize>::empty());
        }
        manager
    }

    /// Whether there is no id left to allocate.
    pub fn is_exhausted(&self) -> (exhausted: bool)
        ensures
            exhausted == !self.has_free(),
    {
        proof {
            self.free_list@.to_multiset_ensures();
        }
        self.free_list.len() == 0 && self.free_from == usize::MAX
    }

    /// Whether an id was allocated and not given back.
    pub fn is_in_use(&self, id: usize) -> (used: bool)
        ensures
            used == self.in_use().contains(id),
    {
        proof {
            self.free_list@.to_multiset_ensures();
        }
        if id >= self.free_from {
            return false;
        }
        let mut at: usize = self.free_list.len();
        while at > 0
            invariant
                at <= self.free_list@.len(),
                forall|i: int| at <= i < self.free_list@.len() ==> self.free_list@[i] != id,
                self.free_list@.contains(id) <==> self.free_list().contains(id),
            decreases at,
        {
            at = at - 1;
            if self.free_list[at] == id {
                assert(self.free_list@.contains(id));
                return false;
            }
        }
        assert(!self.free_list@.contains(id));
        true
    }

    /// Allocates an id: the smallest one that was given back, else the
    /// smallest one that was never allocated.
    pub fn allocate(&mut self) -> (id: usize)
        requires
            old(self).wf(),
            old(self).has_free(),
        ensures
            final(self).wf(),
            old(self).allocates(id, final(self)),
            final(self).name() == old(self).name(),
            final(self).claimed() == old(self).claimed(),
    {
        proof {
            self.free_list@.to_multiset_ensures();
        }
        let ghost before = self.free_list@;
        match self.free_list.pop() {
            Some(id) => {
                proof {
                    let last = before.len() - 1;
                    assert(self.free_list@ =~= before.remove(last));
                    assert forall|other: usize| #[trigger]
                        before.to_multiset().contains(other) implies id <= other by {
                        assert(before.contains(other));
                    }
                    assert(before.contains(id));
                }
                id
            },
            None => {
                let id: usize = self.free_from;
                self.free_from = self.free_from + 1;
                id
            },
        }
    }

    /// Gives an id back, so that it can be allocated again.
    pub fn free(&mut self, id: usize)
        requires
            old(self).wf(),
        ensures
            final(self).wf(),
            old(self).frees(id, final(self)),
            final(self).name() == old(self).name(),
            final(self).claimed() == old(self).claimed(),
    {
        let ghost before = self.free_list@;
        let mut at: usize = self.free_list.len();
        while at > 0 && self.free_list[at - 1] < id
            invariant
                self.wf(),
                self.free_list@ == before,
                self.free_from == old(self).free_from,
                self.name == old(self).name,
                self.claimed == old(self).claimed,
                at <= before.len(),
                forall|i: int| at <= i < before.len() ==> before[i] < id,
            decreases at,
        {
            at = at - 1;
        }
        self.free_list.insert(at, id);
        proof {
            before.to_multiset_ensures();
            before.insert_ensures(at as int, id);
            vstd::seq_lib::to_multiset_insert(before, at as int, id);
        }
    }

    /// Allocates an id as [`allocate`](ThreadIdManager::allocate) does, with a claim
    /// to it.
    pub fn allocate_claim(&mut self) -> (claim: Claim)
        requires
            old(self).wf(),
            old(self).has_free(),
        ensures
            final(self).wf(),
            old(self).allocates(claim.id(), final(self)),
            claim.manager() == old(self).name(),
            final(self).name() == old(self).name(),
            final(self).claimed() == old(self).claimed().insert(claim.id()),
            old(self).balanced() ==> final(self).balanced(),
            old(self).balanced() && old(self).settled() ==> final(self).settled(),
    {
        let id: usize = self.allocate();
        self.claimed = Ghost(self.claimed@.insert(id));
        proof {
            if old(self).balanced() {
                law_allocates_smallest_unused(*old(self), id, *self);
                if old(self).settled() {
                    assert forall|other: usize| #[trigger]
                        self.claimed().count(other) == if self.in_use().contains(other) {
                            1nat
                        } else {
                            0nat
                        } by {
                        assert(old(self).claimed().count(other) == if old(
                            self,
                        ).in_use().contains(other) {
                            1nat
                        } else {
                            0nat
                        });
                    }
                }
            }
        }
        Claim { id, manager: self.name }
    }

    /// Gives an id back as [`free`](ThreadIdManager::free) does, and uses up the
    /// claim to it.
    pub fn free_claim(&mut self, claim: Claim)
        requires
            old(self).wf(),
        ensures
            final(self).wf(),
            old(self).frees(claim.id(), final(self)),
            final(self).name() == old(self).name(),
            final(self).claimed() == old(self).claimed().remove(claim.id()),
            old(self).balanced() && old(self).in_use().contains(claim.id()) ==> {
                &&& final(self).balanced()
                &&& old(self).settled() ==> final(self).settled()
            },
    {
        let id: usize = claim.id;
        self.free(id);
        self.claimed = Ghost(self.claimed@.remove(id));
        proof {
            if old(self).balanced() && old(self).in_use().contains(id) {
                law_frees_one_id(*old(self), id, *self);
                if old(self).settled() {
                    assert forall|other: usize| #[trigger]
                        self.claimed().count(other) == if self.in_use().contains(other) {
                            1nat
                        } else {
                            0nat
                        } by {
                        assert(old(self).claimed().count(other) == if old(
                            self,
                        ).in_use().contains(other) {
                            1nat
                        } else {
                            0nat
                        });
                    }
                }
            }
        }
    }
}

/// What holds of a shared manager whenever nobody has it locked: it is valid, it is
/// the one that was shared at first, only ids that were in use were given back to
/// it, and there is one claim to each id in use.
pub struct ValidManager;

impl LockInvariant<ThreadIdManager> for ValidManager {
    open spec fn inv(initial: ThreadIdManager, value: ThreadIdManager) -> bool {
        &&& value.wf()
        &&& value.balanced()
        &&& value.settled()
        &&& value.name() == initial.name()
    }
}

/// Allocation never hands out an id that is in use, it hands out the smallest
/// of the others, and it adds that id alone to the ids in use.
pub proof fn law_allocates_smallest_unused(
    before: ThreadIdManager,
    id: usize,
    after: ThreadIdManager,
)
    requires
        before.balanced(),
        before.has_free(),
        before.allocates(id, &after),
    ensures
        after.balanced(),
        !before.in_use().contains(id),
        forall|other: usize| other < id ==> before.in_use().contains(other),
        after.in_use() == before.in_use().insert(id),
{
    if before.free_list().len() > 0 {
        assert forall|other: usize| #[trigger] after.free_list().count(other) <= 1 by {
            assert(before.free_list().count(other) <= 1);
        }
        assert forall|other: usize| #[trigger] after.free_list().contains(other) implies other
            < after.free_from() by {
            assert(before.free_list().contains(other));
        }
        assert(before.free_list().contains(id));
        assert(before.free_list().count(id) <= 1);
    } else {
        assert forall|other: usize| !before.free_list().contains(other) by {
            assert(before.free_list().count(other) <= before.free_list().len());
        }
    }
    assert(after.in_use() =~= before.in_use().insert(id));
}

/// There is an id left to allocate unless every id is in use that a thread can have,
/// and every id that was given back is one that a thread can have.
pub proof fn law_free_unless_all_in_use(manager: ThreadIdManager)
    requires
        manager.balanced(),
    ensures
        manager.placeable(),
        manager.has_free() <==> exists|id: usize|
            id < usize::MAX && !#[trigger] manager.in_use().contains(id),
{
    let list = manager.free_list();
    if list.len() > 0 {
        let id = list.choose();
        assert(list.contains(id));
        assert(!manager.in_use().contains(id));
    } else {
        assert forall|id: usize| !list.contains(id) by {
            assert(list.count(id) <= list.len());
        }
        if manager.free_from() < usize::MAX {
            assert(!manager.in_use().contains(manager.free_from()));
        }
    }
}

/// Giving back an id that is in use takes that id alone out of the ids in use.
pub proof fn law_frees_one_id(before: ThreadIdManager, id: usize, after: ThreadIdManager)
    requires
        before.balanced(),
        before.in_use().contains(id),
        before.frees(id, &after),
    ensures
        after.balanced(),
        after.in_use() == before.in_use().remove(id),
{
    assert forall|other: usize| #[trigger] after.free_list().count(other) <= 1 by {
        assert(before.free_list().count(other) <= 1);
    }
    assert forall|other: usize| #[trigger] after.free_list().contains(other) implies other
        < after.free_from() by {
        assert(other == id || before.free_list().contains(other));
    }
    assert(after.in_use() =~= before.in_use().remove(id));
}

/// An id that is smaller than every other unused one is recycled: once it is
/// given back, it is the next one to be allocated, and the ids in use are then
/// what they were before.
pub proof fn law_recycles_smallest(
    before: ThreadIdManager,
    id: usize,
    between: ThreadIdManager,
    next: usize,
    after: ThreadIdManager,
)
    requires
        before.balanced(),
        before.in_use().contains(id),
        forall|other: usize| other < id ==> before.in_use().contains(other),
        before.frees(id, &between),
        between.allocates(next, &after),
    ensures
        next == id,
        after.in_use() == before.in_use(),
{
    law_frees_one_id(before, id, between);
    assert(between.free_list().contains(id));
    assert(between.free_list().len() > 0);
    law_allocates_smallest_unused(between, next, after);
    assert(between.in_use() == before.in_use().remove(id));
    assert(next == id) by {
        assert(next <= id);
        if next < id {
            assert(before.in_use().contains(next));
        }
    }
    assert(after.in_use() =~= before.in_use());
}

/// The number of threads that run at once bounds the ids: an id that is
/// allocated while `in_use` ids are in use is at most their number.
pub proof fn law_ids_bounded_by_running_threads(
    before: ThreadIdManager,
    id: usize,
    after: ThreadIdManager,
)
    requires
        before.balanced(),
        before.has_free(),
        before.allocates(id, &after),
    ensures
        before.in_use().finite(),
        id <= before.in_use().len(),
{
    broadcast use vstd::set_lib::range_set_properties;

    law_allocates_smallest_unused(before, id, after);
    let below = Set::<usize>::range(0, id);
    let allocated = Set::<usize>::range(0, before.free_from());
    assert(before.in_use().subset_of(allocated));
    vstd::set_lib::lemma_len_subset(before.in_use(), allocated);
    assert(below.subset_of(before.in_use()));
    vstd::set_lib::lemma_len_subset(below, before.in_use());
}

/// Whenever nobody has a shared manager locked, it is the one that was shared at
/// first, and the ids in use are just those that somebody has a claim to, each of
/// them once. So an id stays in use until the claim to it is used up, and none is in
/// use that nobody has a claim to.
pub proof fn law_shared_manager_keeps_to_claims(initial: ThreadIdManager, value: ThreadIdManager)
    requires
        ValidManager::inv(initial, value),
    ensures
        value.name() == initial.name(),
        forall|id: usize|
            value.in_use().contains(id) <==> #[trigger] value.claimed().count(id) > 0,
        forall|id: usize| #[trigger] value.claimed().count(id) <= 1,
        forall|id: usize| #[trigger]
            value.free_list().count(id) <= 1 && (value.free_list().count(id) == 1
                ==> value.claimed().count(id) == 0 && id < value.free_from()),
{
    assert forall|id: usize| #[trigger]
        value.free_list().count(id) <= 1 && (value.free_list().count(id) == 1
            ==> value.claimed().count(id) == 0 && id < value.free_from()) by {
        if value.free_list().count(id) == 1 {
            assert(value.free_list().contains(id));
            assert(!value.in_use().contains(id));
            assert(value.claimed().count(id) == 0);
        }
    }
    assert forall|id: usize|
        value.in_use().contains(id) <==> #[trigger] value.claimed().count(id) > 0 by {}
}

/// A turn of a thread, which is known by a number. If it holds an id, it gives that
/// back; if it holds none, it is given one. `held` tells who holds which id.
pub open spec fn turn(
    before: ThreadIdManager,
    held: Map<int, usize>,
    thread: int,
    after: ThreadIdManager,
    held_after: Map<int, usize>,
) -> bool {
    if held.contains_key(thread) {
        &&& before.frees(held[thread], &after)
        &&& held_after == held.remove(thread)
    } else {
        &&& before.has_free()
        &&& before.allocates(held_after[thread], &after)
        &&& held_after == held.insert(thread, held_after[thread])
    }
}

/// Whatever turns threads have taken since nobody held an id: no two threads hold the
/// same id, the ids in use are just those that threads hold, and the next id to be
/// given out is the smallest that no thread holds.
pub proof fn law_ids_in_use_are_held(
    managers: Seq<ThreadIdManager>,
    held: Seq<Map<int, usize>>,
    threads: Seq<int>,
)
    requires
        managers.len() == threads.len() + 1,
        held.len() == threads.len() + 1,
        managers[0].balanced(),
        managers[0].in_use() == Set::<usize>::empty(),
        held[0] == Map::<int, usize>::empty(),
        forall|k: int|
            0 <= k < threads.len() ==> turn(
                managers[k],
                held[k],
                #[trigger] threads[k],
                managers[k + 1],
                held[k + 1],
            ),
    ensures
        managers.last().balanced(),
        forall|a: int, b: int|
            held.last().contains_key(a) && held.last().contains_key(b) && a != b
                ==> #[trigger] held.last()[a] != #[trigger] held.last()[b],
        forall|thread: int| #[trigger]
            held.last().contains_key(thread) ==> managers.last().in_use().contains(
                held.last()[thread],
            ),
        forall|id: usize| #[trigger]
            managers.last().in_use().contains(id) ==> exists|thread: int|
                #![trigger held.last()[thread]]
                held.last().contains_key(thread) && held.last()[thread] == id,
        forall|id: usize, after: ThreadIdManager|
            managers.last().has_free() && #[trigger] managers.last().allocates(id, &after) ==> {
                &&& forall|thread: int| #[trigger]
                    held.last().contains_key(thread) ==> held.last()[thread] != id
                &&& forall|smaller: usize|
                    smaller < id ==> #[trigger] managers.last().in_use().contains(smaller)
            },
    decreases threads.len(),
{
    if threads.len() > 0 {
        let last = threads.len() - 1;
        assert forall|k: int| 0 <= k < threads.drop_last().len() implies turn(
            managers.drop_last()[k],
            held.drop_last()[k],
            #[trigger] threads.drop_last()[k],
            managers.drop_last()[k + 1],
            held.drop_last()[k + 1],
        ) by {
            assert(turn(managers[k], held[k], threads[k], managers[k + 1], held[k + 1]));
        }
        law_ids_in_use_are_held(managers.drop_last(), held.drop_last(), threads.drop_last());
        let (before, before_held) = (managers[last], held[last]);
        assert(managers.drop_last().last() == before);
        assert(held.drop_last().last() == before_held);
        let (after, after_held) = (managers[last + 1], held[last + 1]);
        let thread = threads[last];
        assert(turn(before, before_held, thread, after, after_held));
        if before_held.contains_key(thread) {
            law_frees_one_id(before, before_held[thread], after);
            assert forall|other: int| #[trigger]
                after_held.contains_key(other) implies after.in_use().contains(
                after_held[other],
            ) by {
                assert(before_held.contains_key(other));
                assert(before_held[other] != before_held[thread]);
            }
        } else {
            law_allocates_smallest_unused(before, after_held[thread], after);
            assert forall|a: int, b: int|
                after_held.contains_key(a) && after_held.contains_key(b) && a
                    != b implies #[trigger] after_held[a] != #[trigger] after_held[b] by {
                if a != thread {
                    assert(before_held.contains_key(a));
                }
                if b != thread {
                    assert(before_held.contains_key(b));
                }
                if a != thread && b != thread {
                    assert(before_held[a] != before_held[b]);
                }
            }
        }
        assert forall|id: usize| #[trigger]
            after.in_use().contains(id) implies exists|other: int|
            #![trigger after_held[other]]
            after_held.contains_key(other) && after_held[other] == id by {
            if before.in_use().contains(id) {
                let other = choose|other: int|
                    #![trigger before_held[other]]
                    before_held.contains_key(other) && before_held[other] == id;
                assert(after_held[other] == id);
            } else {
                assert(after_held[thread] == id);
            }
        }
        assert(managers.last() == after);
        assert(held.last() == after_held);
        assert forall|id: usize| #[trigger]
            managers.last().in_use().contains(id) implies exists|other: int|
            #![trigger held.last()[other]]
            held.last().contains_key(other) && held.last()[other] == id by {
            assert(after.in_use().contains(id));
        }
    }
    assert forall|id: usize, after: ThreadIdManager|
        managers.last().has_free() && #[trigger] managers.last().allocates(id, &after) implies {
        &&& forall|thread: int| #[trigger]
            held.last().contains_key(thread) ==> held.last()[thread] != id
        &&& forall|smaller: usize|
            smaller < id ==> #[trigger] managers.last().in_use().contains(smaller)
    } by {
        law_allocates_smallest_unused(managers.last(), id, after);
    }
}

} // verus!
