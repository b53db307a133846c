//! Index adaptation: turning ordinal-like values into bit positions.
//!
//! [`BitIndex`] converts a caller-supplied ordinal value (a primitive
//! integer, or a newtype over one) into a plain bit position, so call
//! sites can key a bit set by domain-specific enumerations.  Signed
//! values convert by the usual truncating cast; a non-negative value in
//! range is carried over exactly.

use vstd::prelude::*;

verus! {

/// A type usable as a bit-set index.
pub trait BitIndex: Sized {
    /// The bit position this value stands for.
    spec fn index_spec(self) -> usize;

    /// Converts the value into its bit position.
    fn into_index(self) -> (r: usize)
        ensures
            r == self.index_spec(),
    ;
}

impl BitIndex for usize {
    open spec fn index_spec(self) -> usize {
        self as usize
    }

    fn into_index(self) -> (r: usize) {
        self
    }
}

impl BitIndex for u32 {
    open spec fn index_spec(self) -> usize {
        self as usize
    }

    fn into_index(self) -> (r: usize) {
        self as usize
    }
}

impl BitIndex for u16 {
    open spec fn index_spec(self) -> usize {
        self as usize
    }

    fn into_index(self) -> (r: usize) {
        self as usize
    }
}

impl BitIndex for u8 {
    open spec fn index_spec(self) -> usize {
        self as usize
    }

    fn into_index(self) -> (r: usize) {
        self as usize
    }
}

impl BitIndex for isize {
    open spec fn index_spec(self) -> usize {
        self as usize
    }

    fn into_index(self) -> (r: usize) {
        #[verifier::truncate] (self as usize)
    }
}

impl BitIndex for i32 {
    open spec fn index_spec(self) -> usize {
        self as usize
    }

    fn into_index(self) -> (r: usize) {
        #[verifier::truncate] (self as usize)
    }
}

impl BitIndex for i16 {
    open spec fn index_spec(self) -> usize {
        self as usize
    }

    fn into_index(self) -> (r: usize) {
        #[verifier::truncate] (self as usize)
    }
}

impl BitIndex for i8 {
    open spec fn index_spec(self) -> usize {
        self as usize
    }

    fn into_index(self) -> (r: usize) {
        #[verifier::truncate] (self as usize)
    }
}

} // verus!
