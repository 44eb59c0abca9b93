//! The runtime's fixed-width scalar types and their native equivalents.
use vstd::prelude::*;

verus! {

/// The runtime's `Bool`.
pub type Bool = bool;

/// The runtime's `Int`, as wide as a pointer.
pub type Int = isize;

/// The runtime's `Int8`.
pub type Int8 = i8;

/// The runtime's `Int16`.
pub type Int16 = i16;

/// The runtime's `Int32`.
pub type Int32 = i32;

/// The runtime's `Int64`.
pub type Int64 = i64;

/// The runtime's `UInt`, as wide as a pointer.
pub type UInt = usize;

/// The runtime's `UInt8`.
pub type UInt8 = u8;

/// The runtime's `UInt16`.
pub type UInt16 = u16;

/// The runtime's `UInt32`.
pub type UInt32 = u32;

/// The runtime's `UInt64`.
pub type UInt64 = u64;

} // verus!
