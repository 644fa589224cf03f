//! Flag packing for serialized domain parameters.
//!
//! When an object is serialized, a few bits of metadata (at most eight) can
//! ride along in the most-significant bits of an adjacent byte.  A `Flags`
//! type produces the bitmask for a flag value, parses the top bits of a
//! byte back into a flag value — reporting no match where those bits
//! correspond to no known value — and can clear the matched bits from the
//! source byte, leaving the byte untouched when parsing fails.

use vstd::prelude::*;

verus! {

/// Metadata flags packed into the most-significant bits of a serialized
/// byte.
pub trait Flags: Sized + Clone + Copy {
    /// The bitmask this flag value contributes, as a specification.
    spec fn bitmask_spec(self) -> u8;

    /// Which flag value, if any, the top bits of a byte encode.
    spec fn from_u8_spec(value: u8) -> Option<Self>;

    /// The number of bits needed to encode a value of this type.
    fn bit_size() -> (r: usize)
        ensures
            r <= 8,
    ;

    /// The bitmask corresponding to `self`.
    fn u8_bitmask(&self) -> (r: u8)
        ensures
            r == self.bitmask_spec(),
    ;

    /// Read a flag value from the most-significant bits of `value`, or
    /// nothing if those bits match no bitmask this type produces.
    fn from_u8(value: u8) -> (r: Option<Self>)
        ensures
            r == Self::from_u8_spec(value),
    ;

    /// As `from_u8`, but on success additionally clear the bits of the
    /// matched flag out of `value`; on failure `value` is left untouched.
    fn from_u8_remove_flags(value: &mut u8) -> (r: Option<Self>)
        ensures
            r == Self::from_u8_spec(*old(value)),
            r matches Some(f) ==> *final(value) == (*old(value) & !f.bitmask_spec()),
            r is None ==> *final(value) == *old(value),
    {
        let flags = Self::from_u8(*value);
        match flags {
            Some(f) => {
                *value = *value & !f.u8_bitmask();
                Some(f)
            },
            None => None,
        }
    }
}

/// Flags that carry no information and occupy no bits.
#[derive(Default, Clone, Copy, PartialEq, Eq, Structural, Debug)]
pub struct EmptyFlags;

impl Flags for EmptyFlags {
    /// The empty flag contributes no bits.
    open spec fn bitmask_spec(self) -> u8 {
        0
    }

    /// Every byte parses as the empty flag.
    open spec fn from_u8_spec(value: u8) -> Option<EmptyFlags> {
        Some(EmptyFlags)
    }

    fn bit_size() -> (r: usize) {
        0
    }

    fn u8_bitmask(&self) -> (r: u8) {
        0
    }

    fn from_u8(value: u8) -> (r: Option<EmptyFlags>) {
        Some(EmptyFlags)
    }
}

} // verus!
