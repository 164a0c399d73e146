//! Closes the set of page sizes.

use vstd::prelude::*;

verus! {

/// Only the page sizes of this crate have this trait, and a page size has
/// to have it.
pub trait Sealed {

}

} // verus!
