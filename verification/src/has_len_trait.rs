//! Text whose byte length can be asked for, used by the search-range setup.

use vstd::prelude::*;

use vstd::utf8::encode_utf8;

verus! {

/// A value with a byte length.
pub trait HasLen {
    /// The length the contracts speak of.
    spec fn spec_len(&self) -> usize;

    fn len(&self) -> (n: usize)
        ensures
            n == self.spec_len(),
    ;
}

impl HasLen for String {
    open spec fn spec_len(&self) -> usize {
        encode_utf8(self@).len() as usize
    }

    fn len(&self) -> (n: usize) {
        str::len(self.as_str())
    }
}

impl HasLen for &str {
    open spec fn spec_len(&self) -> usize {
        encode_utf8(self@).len() as usize
    }

    fn len(&self) -> (n: usize) {
        str::len(self)
    }
}

} // verus!
