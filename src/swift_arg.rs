//! Handing values to foreign functions.
use vstd::prelude::*;

use crate::swift::{swift_ref, SwiftObject, SwiftRef};
use crate::swift_ret::SwiftRet;
use crate::types::array::SRArray;
use crate::types::data::SRData;
use crate::types::object::SRObject;
use crate::types::string::SRString;

verus! {

/// A value that may be passed to a foreign function.
///
/// A scalar is passed as itself, bit for bit. An object is passed as a
/// borrowed [`SwiftRef`] to its root object: the callee must not release it,
/// and the handle keeps its retain credit through the call.
pub trait SwiftArg<'a> {
    /// What the foreign function receives.
    type ArgType;

    /// `arg` is the form in which the value is passed.
    spec fn passes_as(&self, arg: Self::ArgType) -> bool;

    /// The form in which the value is passed.
    fn as_arg(&'a self) -> (r: Self::ArgType)
        ensures
            self.passes_as(r),
    ;
}

impl<'a> SwiftArg<'a> for bool {
    type ArgType = bool;

    open spec fn passes_as(&self, arg: bool) -> bool {
        arg == *self
    }

    fn as_arg(&'a self) -> (r: bool) {
        *self
    }
}

impl<'a> SwiftArg<'a> for isize {
    type ArgType = isize;

    open spec fn passes_as(&self, arg: isize) -> bool {
        arg == *self
    }

    fn as_arg(&'a self) -> (r: isize) {
        *self
    }
}

impl<'a> SwiftArg<'a> for i8 {
    type ArgType = i8;

    open spec fn passes_as(&self, arg: i8) -> bool {
        arg == *self
    }

    fn as_arg(&'a self) -> (r: i8) {
        *self
    }
}

impl<'a> SwiftArg<'a> for i16 {
    type ArgType = i16;

    open spec fn passes_as(&self, arg: i16) -> bool {
        arg == *self
    }

    fn as_arg(&'a self) -> (r: i16) {
        *self
    }
}

impl<'a> SwiftArg<'a> for i32 {
    type ArgType = i32;

    open spec fn passes_as(&self, arg: i32) -> bool {
        arg == *self
    }

    fn as_arg(&'a self) -> (r: i32) {
        *self
    }
}

impl<'a> SwiftArg<'a> for i64 {
    type ArgType = i64;

    open spec fn passes_as(&self, arg: i64) -> bool {
        arg == *self
    }

    fn as_arg(&'a self) -> (r: i64) {
        *self
    }
}

impl<'a> SwiftArg<'a> for usize {
    type ArgType = usize;

    open spec fn passes_as(&self, arg: usize) -> bool {
        arg == *self
    }

    fn as_arg(&'a self) -> (r: usize) {
        *self
    }
}

impl<'a> SwiftArg<'a> for u8 {
    type ArgType = u8;

    open spec fn passes_as(&self, arg: u8) -> bool {
        arg == *self
    }

    fn as_arg(&'a self) -> (r: u8) {
        *self
    }
}

impl<'a> SwiftArg<'a> for u16 {
    type ArgType = u16;

    open spec fn passes_as(&self, arg: u16) -> bool {
        arg == *self
    }

    fn as_arg(&'a self) -> (r: u16) {
        *self
    }
}

impl<'a> SwiftArg<'a> for u32 {
    type ArgType = u32;

    open spec fn passes_as(&self, arg: u32) -> bool {
        arg == *self
    }

    fn as_arg(&'a self) -> (r: u32) {
        *self
    }
}

impl<'a> SwiftArg<'a> for u64 {
    type ArgType = u64;

    open spec fn passes_as(&self, arg: u64) -> bool {
        arg == *self
    }

    fn as_arg(&'a self) -> (r: u64) {
        *self
    }
}

impl<'a> SwiftArg<'a> for () {
    type ArgType = ();

    open spec fn passes_as(&self, arg: ()) -> bool {
        arg == *self
    }

    fn as_arg(&'a self) -> (r: ()) {
        *self
    }
}

impl<'a, T: 'a> SwiftArg<'a> for SRObject<T> {
    type ArgType = SwiftRef<'a, SRObject<T>>;

    open spec fn passes_as(&self, arg: SwiftRef<'a, SRObject<T>>) -> bool {
        arg.addr() == self.root().addr()
    }

    fn as_arg(&'a self) -> (r: SwiftRef<'a, SRObject<T>>) {
        swift_ref(self)
    }
}

impl<'a, T: 'a> SwiftArg<'a> for SRArray<T> {
    type ArgType = SwiftRef<'a, SRArray<T>>;

    open spec fn passes_as(&self, arg: SwiftRef<'a, SRArray<T>>) -> bool {
        arg.addr() == self.root().addr()
    }

    fn as_arg(&'a self) -> (r: SwiftRef<'a, SRArray<T>>) {
        swift_ref(self)
    }
}

impl<'a> SwiftArg<'a> for SRData {
    type ArgType = SwiftRef<'a, SRData>;

    open spec fn passes_as(&self, arg: SwiftRef<'a, SRData>) -> bool {
        arg.addr() == self.root().addr()
    }

    fn as_arg(&'a self) -> (r: SwiftRef<'a, SRData>) {
        swift_ref(self)
    }
}

impl<'a> SwiftArg<'a> for SRString {
    type ArgType = SwiftRef<'a, SRString>;

    open spec fn passes_as(&self, arg: SwiftRef<'a, SRString>) -> bool {
        arg.addr() == self.root().addr()
    }

    fn as_arg(&'a self) -> (r: SwiftRef<'a, SRString>) {
        swift_ref(self)
    }
}

impl<'a, 'b: 'a, T: SwiftArg<'a>> SwiftArg<'a> for &'b T {
    type ArgType = T::ArgType;

    open spec fn passes_as(&self, arg: T::ArgType) -> bool {
        (**self).passes_as(arg)
    }

    fn as_arg(&'a self) -> (r: T::ArgType) {
        (**self).as_arg()
    }
}


/// A scalar crosses a foreign call unchanged in both directions: it is
/// passed as exactly its own bits, and as a result it holds no object, so
/// taking the foreign echo of it back retains nothing and hands the same bits
/// to the caller (see [`crate::swift::CallScope::finish`]).
pub proof fn lemma_scalar_round_trip(
    b: bool,
    word: isize,
    i8v: i8,
    i16v: i16,
    i32v: i32,
    i64v: i64,
    uint: usize,
    u8v: u8,
    u16v: u16,
    u32v: u32,
    u64v: u64,
)
    ensures
        forall|p: bool| #[trigger] b.passes_as(p) ==> p == b,
        b.objects() == Seq::<usize>::empty(),
        forall|p: isize| #[trigger] word.passes_as(p) ==> p == word,
        word.objects() == Seq::<usize>::empty(),
        forall|p: i8| #[trigger] i8v.passes_as(p) ==> p == i8v,
        i8v.objects() == Seq::<usize>::empty(),
        forall|p: i16| #[trigger] i16v.passes_as(p) ==> p == i16v,
        i16v.objects() == Seq::<usize>::empty(),
        forall|p: i32| #[trigger] i32v.passes_as(p) ==> p == i32v,
        i32v.objects() == Seq::<usize>::empty(),
        forall|p: i64| #[trigger] i64v.passes_as(p) ==> p == i64v,
        i64v.objects() == Seq::<usize>::empty(),
        forall|p: usize| #[trigger] uint.passes_as(p) ==> p == uint,
        uint.objects() == Seq::<usize>::empty(),
        forall|p: u8| #[trigger] u8v.passes_as(p) ==> p == u8v,
        u8v.objects() == Seq::<usize>::empty(),
        forall|p: u16| #[trigger] u16v.passes_as(p) ==> p == u16v,
        u16v.objects() == Seq::<usize>::empty(),
        forall|p: u32| #[trigger] u32v.passes_as(p) ==> p == u32v,
        u32v.objects() == Seq::<usize>::empty(),
        forall|p: u64| #[trigger] u64v.passes_as(p) ==> p == u64v,
        u64v.objects() == Seq::<usize>::empty(),
{
}

} // verus!
