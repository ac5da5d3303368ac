//! Prime-field configurations known at compile time.
use vstd::prelude::*;

verus! {

/// `N` little-endian 64-bit words.
#[derive(Clone, Copy, Debug, PartialEq, Eq)]
pub struct BigInt<const N: usize>(pub [u64; N]);

impl<const N: usize> BigInt<N> {
    /// Wraps the words.
    pub fn new(value: [u64; N]) -> (r: Self)
        ensures
            r.0 == value,
    {
        BigInt(value)
    }
}

/// The modulus of a prime field whose elements are kept in Montgomery form on `N` words.
pub trait MontConfig<const N: usize> {
    /// The modulus, little-endian.
    const MODULUS: BigInt<N>;
}

} // verus!
