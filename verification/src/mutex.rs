//! A mutex optimized for little contention.

use crate::flag::{may_enter, waits, Entry, Flag, Door, Step, Tries};
use core::marker::PhantomData;
use crossbeam_utils::Backoff;
use vstd::prelude::*;
use vstd::rwlock::{RwLock, RwLockPredicate, WriteHandle};

verus! {

/// What holds of the value of a mutex whenever nobody has the mutex locked, given
/// the value that the mutex was made with.
pub trait LockInvariant<T> {
    /// Whether `value` may be in a mutex that was made with `initial`.
    spec fn inv(initial: T, value: T) -> bool;
}

/// The invariant of a mutex whose value can be anything.
pub struct AnyValue;

impl<T> LockInvariant<T> for AnyValue {
    open spec fn inv(initial: T, value: T) -> bool {
        true
    }
}

/// The invariant of a mutex, as its cell takes it.
pub struct Holds<T, P> {
    pub initial: T,
    pub marker: PhantomData<P>,
}

impl<T, P: LockInvariant<T>> RwLockPredicate<T> for Holds<T, P> {
    open spec fn inv(self, value: T) -> bool {
        P::inv(self.initial, value)
    }
}

/// A mutex optimized for little contention.
///
/// Who sets the flag may enter, and clears it again on leaving. Nobody else can clear
/// it: there is no way to the flag but through the door. The cell hands
/// the value to one who has entered, and takes it back. It does not drop the value
/// with the mutex.
pub struct Mutex<T, P: LockInvariant<T> = AnyValue> {
    door: Door,
    data: RwLock<T, Holds<T, P>>,
}

/// The right to use the value of a mutex. The value goes back, and others may
/// lock the mutex, when [`unlock`](MutexGuard::unlock) is called. Without that
/// call the mutex stays locked.
pub struct MutexGuard<'a, T, P: LockInvariant<T> = AnyValue> {
    mutex: &'a Mutex<T, P>,
    entry: Entry<'a>,
    value: T,
    handle: WriteHandle<'a, T, Holds<T, P>>,
}

/// What leads to a locked mutex: the flag is tried once, and if that fails it is
/// tried again until it succeeds.
pub open spec fn locks(steps: Seq<Step>) -> bool {
    ||| steps.len() == 1 && steps[0].succeeded()
    ||| exists|backoff: Backoff| #[trigger]
        call_ensures(Backoff::new, (), backoff) && retries(steps, backoff)
}

/// What leads to a locked mutex if the first try fails: there is a pause after each
/// further failure. Who has tried as often as can be counted stops trying, and waits
/// for the value itself.
pub open spec fn retries(steps: Seq<Step>, backoff: Backoff) -> bool {
    &&& steps.len() >= 2
    &&& steps[0].failed()
    &&& {
        ||| waits(steps.skip(1).drop_last(), backoff) && steps.last().succeeded()
        ||| waits(steps.skip(1), backoff) && steps.len() == 1 + 2 * u128::MAX
    }
}

impl<T, P: LockInvariant<T>> Mutex<T, P> {
    /// The value that the mutex was made with.
    pub closed spec fn initial(&self) -> T {
        self.data.pred().initial
    }

    /// The flag that is set while the mutex is locked.
    pub closed spec fn flag(&self) -> Flag {
        self.door.flag()
    }

    /// Whether `value` may be in the mutex while nobody has it locked.
    pub open spec fn inv(&self, value: T) -> bool {
        P::inv(self.initial(), value)
    }

    /// A mutex that nobody has locked, with the given value in it.
    pub fn new(val: T) -> (mutex: Self)
        requires
            P::inv(val, val),
        ensures
            mutex.initial() == val,
            mutex.flag().made_clear(),
    {
        let ghost holds = Holds { initial: val, marker: PhantomData };
        Self { door: Door::new(), data: RwLock::new(val, Ghost(holds)) }
    }

    /// Locks the mutex, waiting for whoever has it locked.
    ///
    /// How long that takes depends on the other threads. The value is the one that
    /// was last unlocked: all that can be known of it is the invariant.
    pub fn lock(&self) -> (guard: MutexGuard<'_, T, P>)
        ensures
            guard.wf(),
            guard.mutex() == *self,
            self.inv(guard@),
            locks(guard.steps()),
            forall|i: int|
                0 <= i < guard.steps().len() ==> (#[trigger] guard.steps()[i]).done_on(
                    self.flag(),
                ),
    {
        let mut tries = self.door.tries();
        if tries.try_set() {
            return self.enter(tries);
        }
        let backoff = Backoff::new();
        assert(call_ensures(Backoff::new, (), backoff));
        let mut left: u128 = u128::MAX;
        assert(tries.steps().skip(1) =~= Seq::<Step>::empty());
        while left > 0
            invariant
                tries.wf(),
                tries.flag() == self.flag(),
                call_ensures(Backoff::new, (), backoff),
                tries.steps().len() == 1 + 2 * (u128::MAX - left),
                tries.steps()[0].failed(),
                waits(tries.steps().skip(1), backoff),
            decreases left,
        {
            let ghost before = tries.steps();
            if tries.try_set() {
                proof {
                    assert(tries.steps().skip(1).drop_last() =~= before.skip(1));
                    assert(retries(tries.steps(), backoff));
                }
                return self.enter(tries);
            }
            tries.pause(&backoff);
            proof {
                let after = tries.steps().skip(1);
                let earlier = before.skip(1);
                assert(after.len() == earlier.len() + 2);
                assert forall|i: int| 0 <= i < after.len() implies if i % 2 == 0 {
                    (#[trigger] after[i]).failed()
                } else {
                    after[i] == Step::Paused(backoff)
                } by {
                    if i < earlier.len() {
                        assert(after[i] == earlier[i]);
                    }
                }
            }
            left = left - 1;
        }
        assert(retries(tries.steps(), backoff));
        self.enter(tries)
    }

    /// Locks the mutex if nobody has it locked.
    ///
    /// The flag is tried once. The mutex is locked exactly if that succeeded, which
    /// depends on the other threads.
    pub fn try_lock(&self) -> (guard: Option<MutexGuard<'_, T, P>>)
        ensures
            exists|exchange: Result<bool, bool>| #[trigger]
                self.flag().tried(exchange) && match guard {
                    Some(guard) => exchange is Ok && guard.steps() == seq![Step::Tried(exchange)],
                    None => exchange is Err,
                },
            guard matches Some(guard) ==> {
                &&& guard.wf()
                &&& guard.mutex() == *self
                &&& self.inv(guard@)
            },
    {
        let mut tries = self.door.tries();
        let set = tries.try_set();
        proof {
            let exchange = tries.steps()[0]->Tried_0;
            assert(tries.steps() =~= seq![Step::Tried(exchange)]);
            assert(self.flag().tried(exchange));
        }
        if !set {
            return None;
        }
        Some(self.enter(tries))
    }

    /// Takes the value, and waits for it if another thread has it.
    fn enter<'a>(&'a self, tries: Tries<'a>) -> (guard: MutexGuard<'a, T, P>)
        requires
            tries.wf(),
            tries.flag() == self.flag(),
            may_enter(tries.steps()),
        ensures
            guard.wf(),
            guard.mutex() == *self,
            self.inv(guard@),
            guard.steps() == tries.steps(),
    {
        let (value, handle) = self.data.acquire_write();
        MutexGuard { mutex: self, entry: Entry::new(tries), value, handle }
    }
}

impl<'a, T, P: LockInvariant<T>> View for MutexGuard<'a, T, P> {
    type V = T;

    /// The value of the mutex.
    closed spec fn view(&self) -> T {
        self.value
    }
}

impl<'a, T, P: LockInvariant<T>> MutexGuard<'a, T, P> {
    /// The handle is that of the cell of the mutex, and the guard has the right to
    /// clear the flag of the mutex.
    pub closed spec fn wf(&self) -> bool {
        &&& self.handle.rwlock() == self.mutex.data
        &&& self.entry.wf()
        &&& self.entry.flag() == self.mutex.flag()
    }

    /// The mutex that is locked.
    pub closed spec fn mutex(&self) -> Mutex<T, P> {
        *self.mutex
    }

    /// What was done to lock the mutex.
    pub closed spec fn steps(&self) -> Seq<Step> {
        self.entry.steps()
    }

    /// The value of the mutex, to be read.
    pub fn deref(&self) -> (value: &T)
        ensures
            *value == self@,
    {
        &self.value
    }

    /// The value of the mutex, to be read and written.
    pub fn deref_mut(&mut self) -> (value: &mut T)
        requires
            old(self).wf(),
        ensures
            *value == old(self)@,
            final(self)@ == *final(value),
            final(self).wf(),
            final(self).mutex() == old(self).mutex(),
            final(self).steps() == old(self).steps(),
    {
        &mut self.value
    }

    /// Whether the value was given back to the cell, and the flag was cleared.
    pub closed spec fn given_back(&self) -> bool {
        &&& call_ensures(
            WriteHandle::<'a, T, Holds<T, P>>::release_write,
            (self.handle, self.value),
            (),
        )
        &&& self.mutex().flag().cleared()
    }

    /// Puts the value back and lets others lock the mutex.
    pub fn unlock(self)
        requires
            self.wf(),
            self.mutex().inv(self@),
        ensures
            self.given_back(),
    {
        let MutexGuard { entry, value, handle, .. } = self;
        handle.release_write(value);
        entry.leave();
    }
}

/// Who unlocks a mutex has locked it: it set the flag of the mutex, and has not
/// cleared it since.
pub proof fn law_who_unlocks_has_locked<'a, T, P: LockInvariant<T>>(guard: MutexGuard<'a, T, P>)
    requires
        guard.wf(),
    ensures
        guard.steps().len() > 0,
        (guard.steps().last() matches Step::Tried(exchange) && exchange is Ok
            && guard.mutex().flag().tried(exchange)) || guard.steps().len() > u128::MAX,
{
}

/// A mutex is locked by setting its flag, and by nothing else that can happen: of
/// the tries just the last one succeeds, and there is a pause of a growing length
/// after each that fails but the first.
pub proof fn law_lock_sets_the_flag_once(steps: Seq<Step>)
    requires
        locks(steps),
        steps.len() <= u128::MAX,
    ensures
        steps.len() > 0,
        steps.last() matches Step::Tried(exchange) && exchange is Ok,
        forall|i: int|
            0 <= i < steps.len() - 1 ==> !((
            #[trigger] steps[i]) matches Step::Tried(exchange) && exchange is Ok),
        forall|i: int, j: int|
            0 < i < j < steps.len() && #[trigger] steps[i] is Tried && #[trigger] steps[j] is Tried
                ==> steps[i + 1] is Paused,
        forall|i: int, j: int|
            0 <= i < j < steps.len() && #[trigger] steps[i] is Paused
                && #[trigger] steps[j] is Paused ==> steps[i] == steps[j],
{
    if steps.len() > 1 {
        let backoff = choose|backoff: Backoff| #[trigger]
            call_ensures(Backoff::new, (), backoff) && retries(steps, backoff);
        let waiting = steps.skip(1).drop_last();
        assert(waits(waiting, backoff));
        assert forall|i: int| 0 < i < steps.len() - 1 implies if i % 2 == 1 {
            (#[trigger] steps[i]).failed()
        } else {
            steps[i] == Step::Paused(backoff)
        } by {
            assert(steps[i] == waiting[i - 1]);
        }
    }
}

} // verus!
