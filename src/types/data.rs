//! The runtime's byte buffers.
use vstd::prelude::*;

use crate::runtime::Runtime;
use crate::swift::SwiftObject;
use crate::swift_ret::SwiftRet;
use crate::types::array::{lemma_objects_of_concat, objects_of, SRArray};
use crate::types::object::SRObject;

verus! {

/// A byte holds no object handles, and neither does any sequence of bytes.
pub proof fn lemma_bytes_hold_no_objects(s: Seq<u8>)
    ensures
        objects_of(s) == Seq::<usize>::empty(),
    decreases s.len(),
{
    if s.len() > 0 {
        lemma_bytes_hold_no_objects(s.drop_first());
        assert(objects_of(s) =~= Seq::<usize>::empty());
    }
}

/// A byte buffer of the runtime: an object holding an array of bytes.
pub struct SRData(SRObject<SRArray<u8>>);

impl View for SRData {
    type V = Seq<u8>;

    open spec fn view(&self) -> Seq<u8> {
        self.handle().data()@
    }
}

impl SRData {
    /// The handle on the buffer object.
    pub closed spec fn handle(&self) -> SRObject<SRArray<u8>> {
        self.0
    }

    /// Copies `bytes` into a new buffer of the runtime. The buffer object and
    /// its byte array are allocated at the next two addresses, each with the
    /// one retain credit that the returned handle owns.
    pub fn from_slice(rt: &mut Runtime, bytes: &[u8]) -> (r: SRData)
        requires
            old(rt).wf(),
            old(rt).counts().len() + 2 <= usize::MAX,
        ensures
            final(rt).wf(),
            r@ == bytes@,
            r.objects() == seq![old(rt).counts().len() as usize, (old(rt).counts().len() + 1) as usize],
            final(rt).counts() == old(rt).counts().push(1).push(1),
            final(rt).pools() == old(rt).pools(),
            final(rt).calls() == old(rt).calls(),
            final(rt).owned(old(rt).counts().len() as usize) == 1,
            final(rt).owned((old(rt).counts().len() + 1) as usize) == 1,
    {
        let outer = rt.allocate();
        let inner = rt.allocate();
        let array = SRArray::from_raw(inner, vstd::slice::slice_to_vec(bytes));
        let r = SRData(SRObject::from_raw(outer, array));
        proof {
            lemma_bytes_hold_no_objects(bytes@);
            assert(array.objects() =~= seq![inner] + Seq::<usize>::empty());
            assert(r.objects() =~= seq![outer] + (seq![inner] + Seq::<usize>::empty()));
        }
        r
    }

    /// Takes over one retain credit of the buffer object at `addr`, whose
    /// payload is `array`.
    pub fn from_raw(addr: usize, array: SRArray<u8>) -> (r: SRData)
        ensures
            r@ == array@,
            r.handle().addr() == addr,
            r.handle().data() == array,
    {
        SRData(SRObject::from_raw(addr, array))
    }

    /// The bytes.
    pub fn as_slice(&self) -> (r: &[u8])
        ensures
            r@ == self@,
    {
        self.0.as_ref().as_slice()
    }

    /// The bytes; the same view as [`SRData::as_slice`].
    pub fn into_slice(&self) -> (r: &[u8])
        ensures
            r@ == self@,
    {
        self.as_slice()
    }

    /// The byte array inside the buffer object.
    pub fn data(&self) -> (r: &SRArray<u8>)
        ensures
            *r == self.handle().data(),
    {
        self.0.as_ref()
    }

    /// A native copy of the bytes.
    pub fn to_vec(&self) -> (r: Vec<u8>)
        ensures
            r@ == self@,
    {
        vstd::slice::slice_to_vec(self.as_slice())
    }
}

impl SwiftObject for SRData {
    type Shape = SRArray<u8>;

    open spec fn root(&self) -> SRObject<SRArray<u8>> {
        self.handle()
    }

    fn get_object(&self) -> (r: &SRObject<SRArray<u8>>) {
        &self.0
    }
}

impl SwiftRet for SRData {
    open spec fn objects(&self) -> Seq<usize> {
        self.handle().objects()
    }

    fn retain(&self, rt: &mut Runtime) {
        self.0.retain(rt)
    }

    fn release(self, rt: &mut Runtime) {
        self.0.release(rt)
    }
}

} // verus!
