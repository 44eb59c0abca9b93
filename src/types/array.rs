//! The runtime's arrays.
use vstd::prelude::*;

use crate::runtime::{
    can_release, can_retain, lemma_release_concat, lemma_retain_concat, lemma_retain_nothing,
    released, retained, Runtime,
};
use crate::swift::SwiftObject;
use crate::swift_ret::SwiftRet;
use crate::types::object::SRObject;

verus! {

/// Object handles held in a sequence of values, in order.
pub open spec fn objects_of<T: SwiftRet>(s: Seq<T>) -> Seq<usize>
    decreases s.len(),
{
    if s.len() == 0 {
        Seq::empty()
    } else {
        s[0].objects() + objects_of(s.drop_first())
    }
}

/// The handles of two sequences joined are those of each, in order.
pub proof fn lemma_objects_of_concat<T: SwiftRet>(a: Seq<T>, b: Seq<T>)
    ensures
        objects_of(a + b) == objects_of(a) + objects_of(b),
    decreases a.len(),
{
    if a.len() == 0 {
        assert(a + b =~= b);
        assert(objects_of(a) + objects_of(b) =~= objects_of(b));
    } else {
        assert((a + b).drop_first() =~= a.drop_first() + b);
        lemma_objects_of_concat(a.drop_first(), b);
        assert(objects_of(a + b) =~= objects_of(a) + objects_of(b));
    }
}

/// The handles of one value in a sequence of its own.
pub proof fn lemma_objects_of_single<T: SwiftRet>(x: T)
    ensures
        objects_of(seq![x]) == x.objects(),
{
    assert(seq![x].drop_first() =~= Seq::<T>::empty());
    assert(seq![x][0] == x);
    assert(objects_of(Seq::<T>::empty()) == Seq::<usize>::empty());
    assert(objects_of(seq![x]) == x.objects() + objects_of(Seq::<T>::empty()));
    assert(x.objects() + Seq::<usize>::empty() =~= x.objects());
}

/// The payload of an array object: its elements, contiguous, and their number.
pub struct SRArrayImpl<T> {
    data: Vec<T>,
}

impl<T> View for SRArrayImpl<T> {
    type V = Seq<T>;

    closed spec fn view(&self) -> Seq<T> {
        self.data@
    }
}

impl<T> SRArrayImpl<T> {
    /// An array payload holding `data`.
    pub fn new(data: Vec<T>) -> (r: SRArrayImpl<T>)
        ensures
            r@ == data@,
    {
        SRArrayImpl { data }
    }

    /// The elements.
    pub fn as_slice(&self) -> (r: &[T])
        ensures
            r@ == self@,
    {
        self.data.as_slice()
    }
}

impl<T: SwiftRet> SwiftRet for SRArrayImpl<T> {
    open spec fn objects(&self) -> Seq<usize> {
        objects_of(self@)
    }

    fn retain(&self, rt: &mut Runtime) {
        let ghost r0 = *rt;
        let ghost s = self@;
        let n = self.data.len();
        let mut i: usize = 0;
        proof {
            lemma_retain_nothing(r0);
            assert(s.subrange(0, 0) =~= Seq::<T>::empty());
            assert(s.subrange(0, n as int) =~= s);
        }
        while i < n
            invariant
                n == s.len(),
                s == self@,
                0 <= i <= n,
                rt.wf(),
                r0.wf(),
                retained(r0, *rt, objects_of(s.subrange(0, i as int))),
                can_retain(*rt, objects_of(s.subrange(i as int, n as int))),
            decreases n - i,
        {
            let ghost r1 = *rt;
            proof {
                let rest = s.subrange(i as int + 1, n as int);
                assert(s.subrange(i as int, n as int) =~= seq![s[i as int]] + rest);
                lemma_objects_of_concat(seq![s[i as int]], rest);
                lemma_objects_of_single(s[i as int]);
                lemma_retain_concat(r1, r1, r1, s[i as int].objects(), objects_of(rest));
            }
            self.data[i].retain(rt);
            proof {
                let rest = s.subrange(i as int + 1, n as int);
                lemma_retain_concat(r1, *rt, *rt, s[i as int].objects(), objects_of(rest));
                let pre = s.subrange(0, i as int);
                assert(s.subrange(0, i as int + 1) =~= pre + seq![s[i as int]]);
                lemma_objects_of_concat(pre, seq![s[i as int]]);
                lemma_retain_concat(r0, r1, *rt, objects_of(pre), s[i as int].objects());
            }
            i = i + 1;
        }
    }

    fn release(self, rt: &mut Runtime) {
        let ghost r0 = *rt;
        let ghost s = self@;
        let mut data = self.data;
        let ghost n = s.len();
        proof {
            lemma_retain_nothing(r0);
            assert(s.subrange(0, 0) =~= Seq::<T>::empty());
            assert(s.subrange(0, n as int) =~= s);
        }
        while data.len() > 0
            invariant
                n == s.len(),
                0 <= data@.len() <= n,
                data@ == s.subrange(n - data@.len(), n as int),
                rt.wf(),
                r0.wf(),
                released(r0, *rt, objects_of(s.subrange(0, n - data@.len()))),
                can_release(*rt, objects_of(data@)),
            decreases data@.len(),
        {
            let ghost r1 = *rt;
            let ghost i = n - data@.len();
            let ghost d = data@;
            let x = data.remove(0);
            proof {
                assert(d =~= seq![x] + data@);
                lemma_objects_of_concat(seq![x], data@);
                lemma_objects_of_single(x);
                lemma_release_concat(r1, r1, r1, x.objects(), objects_of(data@));
            }
            x.release(rt);
            proof {
                lemma_release_concat(r1, *rt, *rt, s[i].objects(), objects_of(data@));
                let pre = s.subrange(0, i);
                assert(s[i] == x);
                assert(s.subrange(0, i + 1) =~= pre + seq![s[i]]);
                lemma_objects_of_concat(pre, seq![s[i]]);
                lemma_objects_of_single(s[i]);
                lemma_release_concat(r0, r1, *rt, objects_of(pre), s[i].objects());
                assert(data@ =~= s.subrange(n - data@.len(), n as int));
            }
        }
    }
}

/// An array of the runtime, held as an object.
pub struct SRArray<T>(SRObject<SRArrayImpl<T>>);

/// An array of objects. The runtime hands out such an array only inside an
/// object of its own, so a handle wraps the array handle.
pub type SRObjectArray<T> = SRObject<SRArray<SRObject<T>>>;

impl<T> View for SRArray<T> {
    type V = Seq<T>;

    open spec fn view(&self) -> Seq<T> {
        self.handle().data()@
    }
}

impl<T> SRArray<T> {
    /// The handle on the array object.
    pub closed spec fn handle(&self) -> SRObject<SRArrayImpl<T>> {
        self.0
    }

    /// Takes over one retain credit of the array object at `addr`, whose
    /// elements are `data`.
    pub fn from_raw(addr: usize, data: Vec<T>) -> (r: SRArray<T>)
        ensures
            r@ == data@,
            r.handle().addr() == addr,
    {
        SRArray(SRObject::from_raw(addr, SRArrayImpl::new(data)))
    }

    /// The elements.
    pub fn as_slice(&self) -> (r: &[T])
        ensures
            r@ == self@,
    {
        self.0.as_ref().as_slice()
    }

    /// The elements; the same view as [`SRArray::as_slice`].
    pub fn into_slice(&self) -> (r: &[T])
        ensures
            r@ == self@,
    {
        self.as_slice()
    }

    /// Number of elements.
    pub fn len(&self) -> (r: usize)
        ensures
            r == self@.len(),
    {
        self.as_slice().len()
    }
}

impl<T> SwiftObject for SRArray<T> {
    type Shape = SRArrayImpl<T>;

    open spec fn root(&self) -> SRObject<SRArrayImpl<T>> {
        self.handle()
    }

    fn get_object(&self) -> (r: &SRObject<SRArrayImpl<T>>) {
        &self.0
    }
}

impl<T: SwiftRet> SwiftRet for SRArray<T> {
    open spec fn objects(&self) -> Seq<usize> {
        self.handle().objects()
    }

    fn retain(&self, rt: &mut Runtime) {
        self.0.retain(rt)
    }

    fn release(self, rt: &mut Runtime) {
        self.0.release(rt)
    }
}

} // verus!
