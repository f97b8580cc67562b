//! The closed set of value types.

use vstd::prelude::*;

verus! {

/// Marks the unsigned integer types that may be stored as values. The module
/// is private, so no other type can join the set.
pub trait Sealed {

}

impl Sealed for u128 {

}

impl Sealed for u64 {

}

impl Sealed for u32 {

}

impl Sealed for u16 {

}

impl Sealed for u8 {

}

} // verus!
