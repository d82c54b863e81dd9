use vstd::prelude::*;

verus! {

/// A 256-bit principal identifier, held as its upper and lower 128 bits.
///
/// The library never looks inside an identity: it only compares two of them
/// for equality.
#[derive(Clone, Copy, Debug, PartialEq, Eq, Structural)]
pub struct Identity {
    pub hi: u128,
    pub lo: u128,
}

impl Identity {
    /// Builds an identity from its two halves.
    pub fn new(hi: u128, lo: u128) -> (id: Identity)
        ensures
            id == (Identity { hi, lo }),
    {
        Identity { hi, lo }
    }
}

} // verus!
