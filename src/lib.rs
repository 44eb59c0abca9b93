//! Calling functions of a reference-counted managed runtime as if they were
//! ordinary typed functions.
//!
//! The library keeps the managed runtime's retain accounting in [`Runtime`],
//! marshals arguments through [`SwiftArg`] and results through [`SwiftRet`],
//! brackets calls with autorelease pools, and views the runtime's array, byte
//! buffer and string objects as native values.
pub mod autorelease;
pub mod balance;
pub mod link;
pub mod runtime;
pub mod swift;
pub mod swift_arg;
pub mod swift_ret;
pub mod types;

pub use autorelease::AutoreleaseScope;
pub use link::{link_swift, link_swift_package, LinkError, SwiftPaths, SwiftTarget, SwiftTargetInfo};
pub use runtime::{AutoreleasePool, Runtime, RuntimeCall};
pub use swift::{begin_call, swift_ref, CallScope, SwiftObject, SwiftRef};
pub use swift_arg::SwiftArg;
pub use swift_ret::SwiftRet;
pub use types::array::{SRArray, SRArrayImpl, SRObjectArray};
pub use types::data::SRData;
pub use types::object::{SRObject, SRObjectImpl};
pub use types::string::SRString;
pub use types::scalars::{
    Bool, Int, Int16, Int32, Int64, Int8, UInt, UInt16, UInt32, UInt64, UInt8,
};
