//! Storage for a value that may not be there yet.

use core::mem::ManuallyDrop;
use core::ops::DerefMut;
use vstd::prelude::*;

verus! {

/// A simple `Option`-based `MaybeUninit`. A value in it is not dropped with it.
pub struct MaybeUninit<T>(Option<ManuallyDrop<T>>);

impl<T> View for MaybeUninit<T> {
    type V = Option<T>;

    /// The value, if there is one.
    closed spec fn view(&self) -> Option<T> {
        match self.0 {
            Some(value) => Some(value@),
            None => None,
        }
    }
}

impl<T> MaybeUninit<T> {
    /// Storage that holds a value.
    pub fn new(val: T) -> (storage: Self)
        ensures
            storage@ == Some(val),
    {
        MaybeUninit(Some(ManuallyDrop::new(val)))
    }

    /// Storage without a value.
    pub fn uninit() -> (storage: Self)
        ensures
            storage@ == None::<T>,
    {
        MaybeUninit(None)
    }

    /// The value to be read, or `None` if there is none.
    pub fn as_ptr(&self) -> (value: Option<&T>)
        ensures
            match value {
                Some(value) => self@ == Some(*value),
                None => self@ is None,
            },
    {
        match &self.0 {
            Some(value) => Some(&**value),
            None => None,
        }
    }

    /// The value to be read and written, or `None` if there is none.
    pub fn as_mut_ptr(&mut self) -> (value: Option<&mut T>)
        ensures
            match value {
                Some(value) => {
                    &&& old(self)@ == Some(*value)
                    &&& final(self)@ == Some(*final(value))
                },
                None => old(self)@ is None && final(self)@ is None,
            },
    {
        match &mut self.0 {
            Some(value) => Some(manually_drop_mut(value)),
            None => None,
        }
    }

    /// Takes the value out of the storage.
    pub fn assume_init(self) -> (value: T)
        requires
            self@ is Some,
        ensures
            self@ == Some(value),
    {
        ManuallyDrop::into_inner(self.0.unwrap())
    }
}

/// `<ManuallyDrop as DerefMut>::deref_mut` gives the value inside, and what is
/// written through the reference is the value inside from then on.
#[verifier::external_body]
fn manually_drop_mut<T>(slot: &mut ManuallyDrop<T>) -> (value: &mut T)
    ensures
        *value == old(slot)@,
        final(slot)@ == *final(value),
{
    slot.deref_mut()
}

} // verus!
