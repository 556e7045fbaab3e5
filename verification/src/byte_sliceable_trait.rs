//! Text that exposes its raw bytes, for the byte-window fingerprinting path.

use vstd::prelude::*;

use vstd::utf8::encode_utf8;

verus! {

/// Text that can be viewed as a sequence of bytes.
pub trait ByteSliceable {
    /// The byte content the contracts speak of.
    spec fn byte_view(&self) -> Seq<u8>;

    fn as_bytes(&self) -> (r: &[u8])
        ensures
            r@ == self.byte_view(),
    ;

    fn len(&self) -> (n: usize)
        ensures
            n == self.byte_view().len() as usize,
    ;
}

impl ByteSliceable for &str {
    open spec fn byte_view(&self) -> Seq<u8> {
        encode_utf8(self@)
    }

    fn as_bytes(&self) -> (r: &[u8]) {
        str::as_bytes(self)
    }

    fn len(&self) -> (n: usize) {
        str::len(self)
    }
}

impl ByteSliceable for String {
    open spec fn byte_view(&self) -> Seq<u8> {
        encode_utf8(self@)
    }

    fn as_bytes(&self) -> (r: &[u8]) {
        str::as_bytes(self.as_str())
    }

    fn len(&self) -> (n: usize) {
        str::len(self.as_str())
    }
}

} // verus!
