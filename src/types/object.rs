//! Handles on objects of the managed runtime.
use vstd::prelude::*;

use crate::runtime::{
    can_release, can_retain, lemma_release_concat, lemma_retain_concat, lemma_single, released,
    retained, Runtime,
};
use crate::swift::SwiftObject;
use crate::swift_ret::SwiftRet;

verus! {

/// The memory of a managed object: a header that the runtime keeps for its
/// own class and reference-count bookkeeping, then the payload.
pub struct SRObjectImpl<T> {
    nsobject_offset: u8,
    data: T,
}

/// An owning handle on a managed object whose payload has the shape `T`.
///
/// The handle holds one retain credit of the object at its address. The
/// payload may be read through it, never changed.
pub struct SRObject<T> {
    addr: usize,
    object: SRObjectImpl<T>,
}

impl<T> SRObject<T> {
    /// Address of the object in the runtime.
    pub closed spec fn addr(&self) -> usize {
        self.addr
    }

    /// The payload that follows the header.
    pub closed spec fn data(&self) -> T {
        self.object.data
    }

    /// Takes over one retain credit of the object at `addr`, whose payload
    /// reads as `data`.
    pub fn from_raw(addr: usize, data: T) -> (r: SRObject<T>)
        ensures
            r.addr() == addr,
            r.data() == data,
    {
        SRObject { addr, object: SRObjectImpl { nsobject_offset: 0, data } }
    }

    /// Address of the object in the runtime.
    pub fn address(&self) -> (r: usize)
        ensures
            r == self.addr(),
    {
        self.addr
    }

    /// The payload.
    pub fn as_ref(&self) -> (r: &T)
        ensures
            *r == self.data(),
    {
        &self.object.data
    }
}

impl<T> SwiftObject for SRObject<T> {
    type Shape = T;

    open spec fn root(&self) -> SRObject<T> {
        *self
    }

    fn get_object(&self) -> (r: &SRObject<T>) {
        self
    }
}

impl<T: SwiftRet> SwiftRet for SRObject<T> {
    open spec fn objects(&self) -> Seq<usize> {
        seq![self.addr()] + self.data().objects()
    }

    fn retain(&self, rt: &mut Runtime) {
        let ghost r0 = *rt;
        proof {
            lemma_single(self.addr);
            lemma_retain_concat(r0, r0, r0, seq![self.addr], self.object.data.objects());
            assert(seq![self.addr].to_multiset().count(self.addr) == 1);
        }
        rt.retain(self.addr);
        let ghost r1 = *rt;
        proof {
            lemma_retain_concat(r0, r1, r1, seq![self.addr], self.object.data.objects());
        }
        self.object.data.retain(rt);
        proof {
            lemma_retain_concat(r0, r1, *rt, seq![self.addr], self.object.data.objects());
        }
    }

    fn release(self, rt: &mut Runtime) {
        let ghost r0 = *rt;
        let ghost rest = self.object.data.objects();
        let SRObject { addr, object } = self;
        proof {
            lemma_single(addr);
            lemma_release_concat(r0, r0, r0, seq![addr], rest);
            assert(seq![addr].to_multiset().count(addr) == 1);
        }
        rt.release(addr);
        let ghost r1 = *rt;
        proof {
            lemma_release_concat(r0, r1, r1, seq![addr], rest);
        }
        object.data.release(rt);
        proof {
            lemma_release_concat(r0, r1, *rt, seq![addr], rest);
        }
    }
}

} // verus!
