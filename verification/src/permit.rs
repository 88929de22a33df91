//! Permits to use a packet of a pool.

use vstd::prelude::*;

verus! {

/// A permit to use one packet of a pool.
///
/// There is no way to copy a permit, and its number alone does not make it what it is: another one
/// with the same number counts as another permit.
pub struct Permit {
    number: usize,
}

impl Permit {
    /// The number of the permit among those of its pool.
    pub closed spec fn number(self) -> nat {
        self.number as nat
    }

    /// A new permit.
    pub(crate) fn new(number: usize) -> (permit: Permit)
        ensures
            permit.number() == number,
    {
        Permit { number }
    }
}

} // verus!
