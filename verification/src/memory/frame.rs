//! Physical frames.

use core::marker::PhantomData;
use vstd::prelude::*;
use crate::memory::page::{AddressNotAligned, PageSize, Size4Kib};
use crate::memory::PhysAddr;

verus! {

/// A physical frame of size `S`, named by its first address.
#[derive(PartialEq, Eq, PartialOrd, Ord)]
pub struct Frame<S: PageSize = Size4Kib> {
    start: PhysAddr,
    size: PhantomData<S>,
}

impl<S: PageSize> Clone for Frame<S> {
    fn clone(&self) -> (r: Self)
        ensures
            r == *self,
    {
        *self
    }
}

impl<S: PageSize> Copy for Frame<S> {

}

impl<S: PageSize> View for Frame<S> {
    type V = nat;

    /// The first address of the frame.
    closed spec fn view(&self) -> nat {
        self.start@
    }
}

impl<S: PageSize> Frame<S> {
    #[verifier::type_invariant]
    closed spec fn aligned(self) -> bool {
        self.start@ % (S::SIZE as nat) == 0 && self.start.is_valid()
    }

    /// The frame that starts at `start`, which must be a multiple of the
    /// frame size.
    pub fn new(start: PhysAddr) -> (r: Result<Self, AddressNotAligned>)
        ensures
            r is Ok <==> start@ % (S::SIZE as nat) == 0,
            r is Ok ==> r->Ok_0@ == start@,
    {
        proof {
            S::size_is_page_multiple();
        }
        let raw: u64 = start.as_u64();
        if raw % S::SIZE == 0 {
            Ok(Frame { start, size: PhantomData })
        } else {
            Err(AddressNotAligned)
        }
    }

    /// The frame that starts at `start`, for a caller that knows `start` to be
    /// aligned.
    pub(crate) fn from_aligned(start: PhysAddr) -> (r: Self)
        requires
            start@ % (S::SIZE as nat) == 0,
        ensures
            r@ == start@,
    {
        proof {
            use_type_invariant(&start);
        }
        Frame { start, size: PhantomData }
    }

    /// The first address of the frame.
    pub fn start_address(self) -> (r: PhysAddr)
        ensures
            r@ == self@,
            r@ % (S::SIZE as nat) == 0,
            r.is_valid(),
    {
        proof {
            use_type_invariant(&self);
        }
        self.start
    }

    /// The size of the frame in bytes.
    pub fn size(self) -> (r: u64)
        ensures
            r == S::SIZE,
    {
        S::SIZE
    }
}

} // verus!
