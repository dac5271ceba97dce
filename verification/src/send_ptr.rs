//! A typed, copyable handle to a non-null pointer.
use vstd::prelude::*;

use core::marker::PhantomData;

verus! {

/// The address of a `T`, never null, handed around by value.
#[verifier::reject_recursive_types(T)]
pub struct SendPtr<T> {
    addr: usize,
    marker: PhantomData<T>,
}

impl<T> Clone for SendPtr<T> {
    fn clone(&self) -> (r: Self)
        ensures
            r == *self,
    {
        *self
    }
}

impl<T> Copy for SendPtr<T> {

}

impl<T> SendPtr<T> {
    /// The address is never null.
    #[verifier::type_invariant]
    spec fn non_null(&self) -> bool {
        self.addr != 0
    }

    /// The address held.
    pub closed spec fn address(&self) -> usize {
        self.addr
    }

    /// Wrap the non-null address `addr`.
    pub fn new(addr: usize) -> (r: Self)
        requires
            addr != 0,
        ensures
            r.address() == addr,
    {
        SendPtr { addr, marker: PhantomData }
    }

    /// The address held; never null.
    pub fn get(&self) -> (r: usize)
        ensures
            r == self.address(),
            r != 0,
    {
        proof {
            use_type_invariant(self);
        }
        self.addr
    }
}

} // verus!
