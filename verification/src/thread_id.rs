//! Allocation of thread ids, and the record a thread keeps of its own id.
//!
//! Ids are small integers. The manager hands out the smallest one that no
//! running thread holds, so that a thread-local object that is used by many
//! short-lived threads does not grow without bound.

use crate::manager::Claim;
pub use crate::manager::{
    law_allocates_smallest_unused, law_frees_one_id, law_ids_bounded_by_running_threads,
    law_recycles_smallest, ThreadIdManager, ValidManager,
};
use crate::mutex::{Mutex, MutexGuard};
use vstd::arithmetic::power2::pow2;
use vstd::prelude::*;

verus! {

broadcast use vstd::multiset::group_multiset_axioms;

/// Data which is unique to the current thread while it is running.
/// A thread ID may be reused after a thread exits.
#[derive(Clone, Copy, Debug, PartialEq, Eq, Structural)]
pub struct Thread {
    /// The bucket this thread's local storage will be in.
    pub bucket: usize,
    /// The index into the bucket this thread's local storage is in.
    pub index: usize,
}

impl Thread {
    /// A bucket number that fits a machine word, and an index within it.
    pub open spec fn wf(&self) -> bool {
        &&& self.bucket < usize::BITS
        &&& self.index < pow2(self.bucket as nat)
    }

    /// The id of the thread: bucket `b` holds the ids from `2^b - 1` up to
    /// `2^(b + 1) - 2`, in order.
    pub open spec fn spec_id(&self) -> int {
        pow2(self.bucket as nat) - 1 + self.index
    }

    /// The place of the thread with the given id.
    ///
    /// id: The thread ID obtained from the thread ID manager.
    pub fn new(id: usize) -> (thread: Self)
        requires
            id < usize::MAX,
        ensures
            thread.wf(),
            thread.spec_id() == id,
            pow2(thread.bucket as nat) <= id + 1 < pow2((thread.bucket + 1) as nat),
            thread.index == id + 1 - pow2(thread.bucket as nat),
    {
        let position: u64 = (id + 1) as u64;
        let bucket: usize = 63 - position.leading_zeros() as usize;
        proof {
            lemma_highest_bit(position);
            lemma_bucket_in_word((id + 1) as usize, bucket as nat);
            vstd::bits::lemma_usize_pow2_no_overflow(bucket as nat);
            vstd::bits::lemma_usize_shl_is_mul(1, bucket);
        }
        let bucket_size: usize = 1usize << bucket;
        let index: usize = id - (bucket_size - 1);
        proof {
            vstd::arithmetic::power2::lemma_pow2_unfold((bucket + 1) as nat);
        }
        Self { bucket, index }
    }

    /// The size of the bucket this thread's local storage will be in.
    pub fn bucket_size(&self) -> (size: usize)
        requires
            self.bucket < usize::BITS,
        ensures
            size == pow2(self.bucket as nat),
    {
        proof {
            vstd::bits::lemma_usize_pow2_no_overflow(self.bucket as nat);
            vstd::bits::lemma_usize_shl_is_mul(1, self.bucket);
        }
        1usize << self.bucket
    }

    /// The id of the thread.
    pub fn id(&self) -> (id: usize)
        requires
            self.wf(),
        ensures
            id == self.spec_id(),
            id < usize::MAX,
    {
        proof {
            lemma_last_id_in_bucket(self.bucket);
        }
        self.bucket_size() - 1 + self.index
    }
}

/// The position of the highest bit of a number is its binary logarithm.
proof fn lemma_highest_bit(position: u64)
    requires
        position > 0,
    ensures
        0 <= vstd::std_specs::bits::u64_leading_zeros(position) <= 63,
        ({
            let bucket = (63 - vstd::std_specs::bits::u64_leading_zeros(position)) as nat;
            pow2(bucket) <= position < pow2(bucket + 1)
        }),
{
    let zeros = vstd::std_specs::bits::u64_leading_zeros(position);
    vstd::std_specs::bits::axiom_u64_leading_zeros(position);
    let bucket = (63 - zeros) as u64;
    assert(position >> bucket != 0) by {
        assert(0u64 & 1u64 == 0u64) by (bit_vector);
    }
    vstd::bits::lemma_u64_shr_is_div(position, bucket);
    vstd::bits::lemma_u64_pow2_no_overflow(bucket as nat);
    assert(position >= pow2(bucket as nat)) by (nonlinear_arith)
        requires
            position as nat / pow2(bucket as nat) != 0,
            pow2(bucket as nat) > 0,
    ;
    if bucket < 63 {
        let next = (bucket + 1) as u64;
        assert(position >> next == 0);
        vstd::bits::lemma_u64_shr_is_div(position, next);
        vstd::bits::lemma_u64_pow2_no_overflow(next as nat);
        assert(position < pow2(next as nat)) by (nonlinear_arith)
            requires
                position as nat / pow2(next as nat) == 0,
                pow2(next as nat) > 0,
        ;
    } else {
        vstd::arithmetic::power2::lemma2_to64();
    }
}

/// The bucket of an id is smaller than the number of bits in a word.
proof fn lemma_bucket_in_word(position: usize, bucket: nat)
    requires
        pow2(bucket) <= position,
    ensures
        bucket < usize::BITS,
{
    vstd::arithmetic::power2::lemma2_to64();
    if bucket >= usize::BITS {
        if bucket > usize::BITS {
            vstd::arithmetic::power2::lemma_pow2_strictly_increases(usize::BITS as nat, bucket);
        }
    }
}

/// Even the last id of the last bucket is below the largest number of a word.
proof fn lemma_last_id_in_bucket(bucket: usize)
    requires
        bucket < usize::BITS,
    ensures
        2 * pow2(bucket as nat) - 2 < usize::MAX,
{
    vstd::arithmetic::power2::lemma2_to64();
    vstd::arithmetic::power2::lemma_pow2_unfold((bucket + 1) as nat);
    if bucket + 1 < usize::BITS {
        vstd::arithmetic::power2::lemma_pow2_strictly_increases(
            (bucket + 1) as nat,
            usize::BITS as nat,
        );
    }
}

/// Two threads have the same id exactly if they have the same place: no two
/// ids share a slot of a bucket.
pub proof fn law_places_are_unique(a: Thread, b: Thread)
    requires
        a.wf(),
        b.wf(),
    ensures
        a.spec_id() == b.spec_id() <==> a == b,
{
    if a.bucket < b.bucket {
        lemma_buckets_ascend(a, b);
    } else if b.bucket < a.bucket {
        lemma_buckets_ascend(b, a);
    }
}

/// The ids of a bucket are all below those of the next one.
proof fn lemma_buckets_ascend(a: Thread, b: Thread)
    requires
        a.wf(),
        b.wf(),
        a.bucket < b.bucket,
    ensures
        a.spec_id() < b.spec_id(),
{
    vstd::arithmetic::power2::lemma_pow2_unfold((a.bucket + 1) as nat);
    if a.bucket + 1 < b.bucket {
        vstd::arithmetic::power2::lemma_pow2_strictly_increases(
            (a.bucket + 1) as nat,
            b.bucket as nat,
        );
    }
}

/// What a running thread remembers of its own id.
///
/// The id is allocated when the thread first needs it, and is given back when
/// the thread exits.
pub struct CurrentThread {
    /// The place that goes with the id, once it is allocated.
    thread: Option<Thread>,
    /// The claim to the id, which is given back when the thread exits. It is kept
    /// apart from the place, which may be forgotten before.
    guard: Option<Claim>,
}

impl CurrentThread {
    /// The place of the thread, if it was given an id.
    pub closed spec fn thread(&self) -> Option<Thread> {
        self.thread
    }

    /// The id that the thread has to give back.
    pub closed spec fn guard(&self) -> Option<usize> {
        match self.guard {
            Some(claim) => Some(claim.id()),
            None => None,
        }
    }

    /// The name of the manager that the thread has its id from.
    pub closed spec fn manager(&self) -> Option<int> {
        match self.guard {
            Some(claim) => Some(claim.manager()),
            None => None,
        }
    }

    /// The place is that of the id which will be given back.
    pub open spec fn wf(&self) -> bool {
        match self.thread() {
            Some(thread) => {
                &&& thread.wf()
                &&& self.guard() is Some
                &&& self.guard()->0 == thread.spec_id()
            },
            None => self.guard() is None,
        }
    }

    /// Whether the thread holds an id that `manager` allocated, if it holds one.
    pub open spec fn registered_with(&self, manager: &ThreadIdManager) -> bool {
        self.guard() matches Some(id) ==> manager.in_use().contains(id)
    }

    /// A thread that was not given an id yet.
    pub fn new() -> (current: Self)
        ensures
            current.wf(),
            current.thread() is None,
    {
        Self { thread: None, guard: None }
    }

    /// Returns the place of the thread if it was given an id, and allocates none.
    pub fn try_get(&self) -> (thread: Option<Thread>)
        ensures
            thread == self.thread(),
    {
        self.thread
    }

    /// Returns the place of the thread, allocating an id if needed.
    pub fn get(&mut self, manager: &mut ThreadIdManager) -> (thread: Thread)
        requires
            old(self).wf(),
            old(manager).wf(),
            old(manager).placeable(),
            old(self).thread() is None ==> old(manager).has_free(),
        ensures
            final(self).wf(),
            final(self).thread() == Some(thread),
            final(manager).wf(),
            final(manager).placeable(),
            old(manager).balanced() ==> final(manager).balanced(),
            old(manager).balanced() && old(self).registered_with(old(manager))
                ==> final(self).registered_with(final(manager)),
            match old(self).thread() {
                Some(known) => {
                    &&& thread == known
                    &&& *final(self) == *old(self)
                    &&& *final(manager) == *old(manager)
                },
                None => {
                    &&& old(manager).allocates(thread.spec_id() as usize, final(manager))
                    &&& final(self).manager() == Some(old(manager).name())
                    &&& final(manager).claimed() == old(manager).claimed().insert(
                        thread.spec_id() as usize,
                    )
                },
            },
            final(manager).name() == old(manager).name(),
    {
        match self.thread {
            Some(thread) => thread,
            None => self.get_slow(manager),
        }
    }

    /// Out-of-line slow path for allocating a thread ID.
    fn get_slow(&mut self, manager: &mut ThreadIdManager) -> (thread: Thread)
        requires
            old(manager).wf(),
            old(manager).placeable(),
            old(manager).has_free(),
        ensures
            final(self).wf(),
            final(self).thread() == Some(thread),
            final(manager).wf(),
            final(manager).placeable(),
            old(manager).balanced() ==> {
                &&& final(manager).balanced()
                &&& final(self).registered_with(final(manager))
            },
            old(manager).allocates(thread.spec_id() as usize, final(manager)),
            final(self).manager() == Some(old(manager).name()),
            final(manager).name() == old(manager).name(),
            final(manager).claimed() == old(manager).claimed().insert(
                thread.spec_id() as usize,
            ),
            old(manager).balanced() && old(manager).settled() ==> final(manager).settled(),
    {
        let claim = manager.allocate_claim();
        let id: usize = claim.get();
        proof {
            assert forall|other: usize| #[trigger] manager.free_list().contains(other) implies other
                < usize::MAX by {
                assert(old(manager).free_list().contains(other));
            }
            if old(manager).balanced() {
                law_allocates_smallest_unused(*old(manager), id, *manager);
            }
        }
        let thread = Thread::new(id);
        self.thread = Some(thread);
        self.guard = Some(claim);
        thread
    }

    /// Forgets the place of the thread and gives its id back: the thread exits.
    pub fn release(&mut self, manager: &mut ThreadIdManager)
        requires
            old(self).wf(),
            old(manager).wf(),
        ensures
            final(self).wf(),
            final(self).thread() is None,
            final(manager).wf(),
            match old(self).thread() {
                Some(thread) => old(manager).frees(thread.spec_id() as usize, final(manager)),
                None => *final(manager) == *old(manager),
            },
            old(manager).placeable() ==> final(manager).placeable(),
            old(manager).balanced() && old(self).registered_with(old(manager)) ==> {
                &&& final(manager).balanced()
                &&& old(manager).settled() ==> final(manager).settled()
            },
            final(manager).name() == old(manager).name(),
            old(self).thread() matches Some(thread) ==> final(manager).claimed() == old(
                manager,
            ).claimed().remove(thread.spec_id() as usize),
    {
        proof {
            if self.thread is Some {
                lemma_last_id_in_bucket(self.thread->0.bucket);
            }
        }
        self.thread = None;
        match self.guard.take() {
            Some(claim) => {
                let ghost id = claim.id();
                manager.free_claim(claim);
                proof {
                    assert forall|other: usize|
                        old(manager).placeable() && #[trigger] manager.free_list().contains(
                            other,
                        ) implies other < usize::MAX by {
                        assert(other == id || old(manager).free_list().contains(other));
                    }
                }
            },
            None => {},
        }
    }

    /// Returns the place of the thread, allocating an id from a shared manager if
    /// needed. The manager is locked only then. The id is one that was not in use
    /// when the manager was locked. `None` tells that no id is left; the thread then
    /// has no id as before.
    pub fn get_shared(&mut self, manager: &Mutex<ThreadIdManager, ValidManager>) -> (thread: Option<
        Thread,
    >)
        requires
            old(self).wf(),
        ensures
            final(self).wf(),
            match (old(self).thread(), thread) {
                (Some(known), thread) => {
                    &&& thread == Some(known)
                    &&& *final(self) == *old(self)
                },
                (None, Some(thread)) => {
                    &&& final(self).thread() == Some(thread)
                    &&& final(self).manager() == Some(manager.initial().name())
                    &&& exists|
                        guard: MutexGuard<'_, ThreadIdManager, ValidManager>,
                        after: MutexGuard<'_, ThreadIdManager, ValidManager>,
                    |
                        {
                            &&& #[trigger] call_ensures(
                                Mutex::<ThreadIdManager, ValidManager>::lock,
                                (manager,),
                                guard,
                            )
                            &&& after.mutex() == *manager
                            &&& guard@.balanced()
                            &&& guard@.has_free()
                            &&& guard@.allocates(thread.spec_id() as usize, &after@)
                            &&& !guard@.in_use().contains(thread.spec_id() as usize)
                            &&& after@.balanced()
                            &&& final(self).registered_with(&after@)
                            &&& final(self).manager() == Some(after@.name())
                            &&& after@.settled()
                            &&& #[trigger] call_ensures(
                                MutexGuard::<'_, ThreadIdManager, ValidManager>::unlock,
                                (after,),
                                (),
                            )
                        }
                },
                (None, None) => {
                    &&& *final(self) == *old(self)
                    &&& exists|guard: MutexGuard<'_, ThreadIdManager, ValidManager>|
                        {
                            &&& #[trigger] call_ensures(
                                Mutex::<ThreadIdManager, ValidManager>::lock,
                                (manager,),
                                guard,
                            )
                            &&& !guard@.has_free()
                            &&& call_ensures(
                                MutexGuard::<'_, ThreadIdManager, ValidManager>::unlock,
                                (guard,),
                                (),
                            )
                        }
                },
            },
    {
        if self.thread.is_some() {
            return self.thread;
        }
        let mut guard = manager.lock();
        let ghost locked = guard;
        assert(call_ensures(
            Mutex::<ThreadIdManager, ValidManager>::lock,
            (manager,),
            locked,
        ));
        if guard.deref().is_exhausted() {
            guard.unlock();
            assert(call_ensures(
                MutexGuard::<'_, ThreadIdManager, ValidManager>::unlock,
                (locked,),
                (),
            ));
            return None;
        }
        let thread = self.get_slow(guard.deref_mut());
        let ghost after = guard;
        proof {
            lemma_last_id_in_bucket(thread.bucket);
            law_allocates_smallest_unused(locked@, thread.spec_id() as usize, after@);
        }
        guard.unlock();
        assert(call_ensures(
            MutexGuard::<'_, ThreadIdManager, ValidManager>::unlock,
            (after,),
            (),
        ));
        Some(thread)
    }

    /// Forgets the place of the thread and gives its id back to a shared manager:
    /// the thread exits. An id that is not in use, as that of a thread which got it
    /// from another manager may not be, is not given back.
    pub fn release_shared(&mut self, manager: &Mutex<ThreadIdManager, ValidManager>)
        requires
            old(self).wf(),
        ensures
            final(self).wf(),
            final(self).thread() is None,
            old(self).thread() is Some ==> exists|
                guard: MutexGuard<'_, ThreadIdManager, ValidManager>,
                after: MutexGuard<'_, ThreadIdManager, ValidManager>,
            |
                {
                    let id = old(self).thread()->0.spec_id() as usize;
                    &&& #[trigger] call_ensures(
                        Mutex::<ThreadIdManager, ValidManager>::lock,
                        (manager,),
                        guard,
                    )
                    &&& after.mutex() == *manager
                    &&& guard@.in_use().contains(id) ==> guard@.frees(id, &after@)
                    &&& !guard@.in_use().contains(id) ==> after@ == guard@
                    &&& guard@.balanced()
                    &&& after@.balanced()
                    &&& after@.settled()
                    &&& #[trigger] call_ensures(
                        MutexGuard::<'_, ThreadIdManager, ValidManager>::unlock,
                        (after,),
                        (),
                    )
                },
    {
        let id: usize = match &self.guard {
            Some(claim) => claim.get(),
            None => return,
        };
        let mut guard = manager.lock();
        let ghost locked = guard;
        assert(call_ensures(
            Mutex::<ThreadIdManager, ValidManager>::lock,
            (manager,),
            locked,
        ));
        if guard.deref().is_in_use(id) {
            self.release(guard.deref_mut());
        } else {
            self.thread = None;
            self.guard = None;
        }
        let ghost after = guard;
        guard.unlock();
        assert(call_ensures(
            MutexGuard::<'_, ThreadIdManager, ValidManager>::unlock,
            (after,),
            (),
        ));
    }
}

/// While a thread holds its id, no other thread is given that id or that place,
/// and the thread goes on holding it.
pub proof fn law_running_threads_differ(
    running: CurrentThread,
    before: ThreadIdManager,
    other: Thread,
    after: ThreadIdManager,
)
    requires
        running.wf(),
        running.thread() is Some,
        running.registered_with(&before),
        before.balanced(),
        before.has_free(),
        other.wf(),
        before.allocates(other.spec_id() as usize, &after),
    ensures
        other != running.thread()->0,
        other.spec_id() != running.thread()->0.spec_id(),
        running.registered_with(&after),
{
    lemma_last_id_in_bucket(other.bucket);
    law_allocates_smallest_unused(before, other.spec_id() as usize, after);
}

/// A thread goes on holding its id when another thread exits.
pub proof fn law_exit_keeps_other_ids(
    running: CurrentThread,
    before: ThreadIdManager,
    id: usize,
    after: ThreadIdManager,
)
    requires
        running.registered_with(&before),
        before.balanced(),
        before.in_use().contains(id),
        running.guard() != Some(id),
        before.frees(id, &after),
    ensures
        running.registered_with(&after),
{
    law_frees_one_id(before, id, after);
}

} // verus!
