//! The two hash functions the library leans on.
//!
//! The rolling window hash comes from the `cyclic_poly_23` crate.  Its value
//! is a pure function of the hashed block alone (the crate's transformation
//! tables are compile-time constants), so the contracts name that function,
//! [`cyclic_window_hash`], without spelling out the polynomial arithmetic.
//!
//! The 64-bit fingerprint comes from `ahash`.  `AHasher::default()` draws its
//! keys once per process, so two runs of the program may fingerprint the same
//! bytes differently; nothing is promised of the value, and every caller
//! states only what holds whatever value comes back.

use vstd::prelude::*;

verus! {

/// The value that `cyclic_poly_23::CyclicPoly64` computes for a block of
/// bytes: `CyclicPoly64::from_block(b).value()`.  It depends on the block
/// alone.
pub uninterp spec fn cyclic_window_hash(window: Seq<u8>) -> u64;

/// A rolling hasher over a window of bytes, wrapping the crate's hasher
/// state.  The struct is opaque to the verifier: the declaration of
/// `cyclic_poly_23::CyclicPoly<T>` itself is out of reach because its trait
/// bound (`HashValue`) is private to that crate.  [`hasher_window`] names the
/// block whose hash the state currently holds.
#[verifier::external_body]
pub struct RollingHasher {
    inner: cyclic_poly_23::CyclicPoly64,
}

/// The block of bytes whose hash a [`RollingHasher`] currently holds.
pub uninterp spec fn hasher_window(h: RollingHasher) -> Seq<u8>;

impl RollingHasher {
    /// Relies on `cyclic_poly_23::CyclicPoly64::from_block`: it initialises
    /// the hasher with the given block, whose length fixes the window size.
    #[verifier::external_body]
    pub fn from_block(block: &[u8]) -> (r: RollingHasher)
        ensures
            hasher_window(r) == block@,
    {
        RollingHasher { inner: cyclic_poly_23::CyclicPoly64::from_block(block) }
    }

    /// Relies on `cyclic_poly_23::CyclicPoly64::value`: it returns the hash
    /// of the block the hasher currently holds.
    #[verifier::external_body]
    pub fn value(&self) -> (h: u64)
        ensures
            h == cyclic_window_hash(hasher_window(*self)),
    {
        self.inner.value()
    }

    /// Relies on `cyclic_poly_23::CyclicPoly64::rotate`: dropping the byte
    /// that entered the window first and appending a new byte shifts the
    /// window by one position.
    #[verifier::external_body]
    pub fn rotate(&mut self, old_byte: u8, new_byte: u8)
        requires
            hasher_window(*old(self)).len() >= 1,
            old_byte == hasher_window(*old(self))[0],
        ensures
            hasher_window(*final(self)) == hasher_window(*old(self)).drop_first().push(new_byte),
    {
        self.inner.rotate(old_byte, new_byte);
    }
}

/// Relies on `ahash::AHasher`: `default()`, `write`, `finish` fingerprint a
/// byte slice.  The keys are drawn once per process, so no value, and no
/// function of the input, can be promised of the result.
#[verifier::external_body]
pub fn fingerprint64(bytes: &[u8]) -> u64 {
    let mut hasher = ahash::AHasher::default();
    std::hash::Hasher::write(&mut hasher, bytes);
    std::hash::Hasher::finish(&hasher)
}

} // verus!
