//! The flag of a mutex, and the record of what one who wants to set it has done.

use core::sync::atomic::{AtomicBool, Ordering};
use crossbeam_utils::Backoff;
use vstd::prelude::*;

verus! {

/// A flag that threads set and clear.
pub struct Flag {
    state: AtomicBool,
}

impl Flag {
    /// Whether the flag can be what comes of making a clear one.
    pub closed spec fn made_clear(&self) -> bool {
        call_ensures(AtomicBool::new, (false,), self.state)
    }

    /// Whether `exchange` can be what comes of trying the flag: of exchanging it
    /// for a set one if it is clear.
    pub closed spec fn tried(&self, exchange: Result<bool, bool>) -> bool {
        call_ensures(
            AtomicBool::compare_exchange,
            (&self.state, false, true, Ordering::Acquire, Ordering::Relaxed),
            exchange,
        )
    }

    /// Whether the flag was cleared.
    pub closed spec fn cleared(&self) -> bool {
        call_ensures(AtomicBool::store, (&self.state, false, Ordering::Release), ())
    }

    /// A flag that is clear.
    pub fn new() -> (flag: Self)
        ensures
            flag.made_clear(),
    {
        Self { state: AtomicBool::new(false) }
    }

    /// Clears the flag.
    pub fn clear(&self)
        ensures
            self.cleared(),
    {
        self.state.store(false, Ordering::Release);
    }
}

/// What one who wants to set a flag does.
pub enum Step {
    /// The flag was tried, and this came of it: `Ok` if it was clear and is now set,
    /// `Err` if it was set already.
    Tried(Result<bool, bool>),
    /// Nothing was done for a while, as long as this said.
    Paused(Backoff),
}

impl Step {
    /// The flag was clear, and was set.
    pub open spec fn succeeded(self) -> bool {
        self matches Step::Tried(exchange) && exchange is Ok
    }

    /// The flag was set already.
    pub open spec fn failed(self) -> bool {
        self matches Step::Tried(exchange) && exchange is Err
    }

    /// Whether the step can be one that was done on the flag.
    pub open spec fn done_on(self, flag: Flag) -> bool {
        match self {
            Step::Tried(exchange) => flag.tried(exchange),
            Step::Paused(backoff) => call_ensures(Backoff::snooze, (&backoff,), ()),
        }
    }
}

/// Whether the flag was tried again and again, always in vain and with a pause
/// after each try. All pauses are those of one `backoff`, so that they grow.
pub open spec fn waits(steps: Seq<Step>, backoff: Backoff) -> bool {
    &&& steps.len() % 2 == 0
    &&& forall|i: int|
        0 <= i < steps.len() ==> if i % 2 == 0 {
            (#[trigger] steps[i]).failed()
        } else {
            steps[i] == Step::Paused(backoff)
        }
}

/// The record of what one who wants to set a flag has done. Only what is done gets
/// into it.
pub struct Tries<'a> {
    flag: &'a Flag,
    steps: Ghost<Seq<Step>>,
}

impl<'a> Tries<'a> {
    /// Each outcome is one of trying the flag, and each pause was made.
    pub open spec fn wf(&self) -> bool {
        forall|i: int|
            0 <= i < self.steps().len() ==> (#[trigger] self.steps()[i]).done_on(self.flag())
    }

    /// The flag that is tried.
    pub closed spec fn flag(&self) -> Flag {
        *self.flag
    }

    /// What was done, in order.
    pub closed spec fn steps(&self) -> Seq<Step> {
        self.steps@
    }

    /// The record of one who has done nothing yet.
    pub fn new(flag: &'a Flag) -> (tries: Self)
        ensures
            tries.wf(),
            tries.flag() == *flag,
            tries.steps() == Seq::<Step>::empty(),
    {
        Self { flag, steps: Ghost(Seq::empty()) }
    }

    /// Sets the flag if it is clear, and tells whether it was.
    pub fn try_set(&mut self) -> (set: bool)
        requires
            old(self).wf(),
        ensures
            final(self).wf(),
            final(self).flag() == old(self).flag(),
            exists|exchange: Result<bool, bool>| #[trigger]
                old(self).flag().tried(exchange) && set == (exchange is Ok)
                    && final(self).steps() == old(self).steps().push(Step::Tried(exchange)),
    {
        let exchange = self.flag.state.compare_exchange(
            false,
            true,
            Ordering::Acquire,
            Ordering::Relaxed,
        );
        assert(self.flag.tried(exchange));
        self.steps = Ghost(self.steps@.push(Step::Tried(exchange)));
        proof {
            assert(old(self).flag().tried(exchange));
            assert forall|i: int| 0 <= i < self.steps().len() implies (
            #[trigger] self.steps()[i]).done_on(self.flag()) by {
                if i < old(self).steps().len() {
                    assert(old(self).steps()[i].done_on(old(self).flag()));
                }
            }
        }
        exchange.is_ok()
    }

    /// Does nothing for a while, which is longer each time.
    pub fn pause(&mut self, backoff: &Backoff)
        requires
            old(self).wf(),
        ensures
            final(self).wf(),
            final(self).flag() == old(self).flag(),
            final(self).steps() == old(self).steps().push(Step::Paused(*backoff)),
            call_ensures(Backoff::snooze, (backoff,), ()),
    {
        backoff.snooze();
        self.steps = Ghost(self.steps@.push(Step::Paused(*backoff)));
        assert forall|i: int| 0 <= i < self.steps().len() implies (
        #[trigger] self.steps()[i]).done_on(self.flag()) by {
            if i < old(self).steps().len() {
                assert(old(self).steps()[i].done_on(old(self).flag()));
            }
        }
    }
}

/// Whether somebody may enter who has done these steps: the last thing was to set the
/// flag, or it was tried in vain as often as can be counted.
pub open spec fn may_enter(steps: Seq<Step>) -> bool {
    &&& steps.len() > 0
    &&& steps.last().succeeded() || steps.len() == 1 + 2 * u128::MAX
}

/// A flag that is cleared only by those who have entered.
pub struct Door {
    flag: Flag,
}

impl Door {
    /// The flag.
    pub closed spec fn flag(&self) -> Flag {
        self.flag
    }

    /// A door whose flag is clear.
    pub fn new() -> (door: Self)
        ensures
            door.flag().made_clear(),
    {
        Self { flag: Flag::new() }
    }

    /// The record of one who has not tried the flag yet.
    pub fn tries(&self) -> (tries: Tries<'_>)
        ensures
            tries.wf(),
            tries.flag() == self.flag(),
            tries.steps() == Seq::<Step>::empty(),
    {
        Tries::new(&self.flag)
    }
}

/// The right of one who has entered to clear the flag, once. It cannot be made
/// without entering, and cannot be copied.
pub struct Entry<'a> {
    tries: Tries<'a>,
}

impl<'a> Entry<'a> {
    /// What was done to enter was done on the flag, and it was enough.
    pub open spec fn wf(&self) -> bool {
        &&& may_enter(self.steps())
        &&& forall|i: int|
            0 <= i < self.steps().len() ==> (#[trigger] self.steps()[i]).done_on(self.flag())
    }

    /// The flag.
    pub closed spec fn flag(&self) -> Flag {
        self.tries.flag()
    }

    /// What was done to enter.
    pub closed spec fn steps(&self) -> Seq<Step> {
        self.tries.steps()
    }

    /// Enters. The flag stays set.
    pub fn new(tries: Tries<'a>) -> (entry: Self)
        requires
            tries.wf(),
            may_enter(tries.steps()),
        ensures
            entry.wf(),
            entry.flag() == tries.flag(),
            entry.steps() == tries.steps(),
    {
        Self { tries }
    }

    /// Leaves, and clears the flag.
    pub fn leave(self)
        requires
            self.wf(),
        ensures
            self.flag().cleared(),
    {
        self.tries.flag.clear();
    }
}

/// Only who has entered can leave: the flag of a door is cleared by one who has set
/// it, and who gives up the right to clear it with that. In between nobody can clear
/// it, and so nobody else can set it.
pub proof fn law_who_leaves_has_entered<'a>(entry: Entry<'a>)
    requires
        entry.wf(),
    ensures
        entry.steps().len() > 0,
        (entry.steps().last() matches Step::Tried(exchange) && exchange is Ok
            && entry.flag().tried(exchange)) || entry.steps().len() > u128::MAX,
{
}

/// `crossbeam_utils::Backoff`, the state of a growing pause. Nothing is claimed
/// of what it holds.
#[verifier::external_type_specification]
#[verifier::external_body]
pub struct ExBackoff(crossbeam_utils::Backoff);

/// `crossbeam_utils::Backoff::new` starts with the shortest pause. Nothing is
/// claimed of the result.
pub assume_specification[ crossbeam_utils::Backoff::new ]() -> crossbeam_utils::Backoff;

/// `crossbeam_utils::Backoff::snooze` pauses, or lets another thread run, and
/// makes the next pause longer. It returns nothing and changes no value of the
/// caller, and nothing else is claimed of it.
pub assume_specification[ crossbeam_utils::Backoff::snooze ](backoff: &crossbeam_utils::Backoff);

} // verus!
