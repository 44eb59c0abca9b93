//! Taking ownership of what a foreign function returns.
use vstd::prelude::*;

use crate::runtime::{
    can_release, can_retain, lemma_release_concat, lemma_retain_concat, lemma_retain_nothing,
    released, retained, Runtime,
};

verus! {

/// A value that a foreign function may return.
///
/// The runtime hands a returned object over without a retain credit for the
/// caller, so taking ownership of the value retains every object handle in
/// it, nested ones included. Giving the value up releases each of them again.
pub trait SwiftRet: Sized {
    /// Addresses of the object handles held in the value, outermost first,
    /// each as often as it occurs.
    spec fn objects(&self) -> Seq<usize>;

    /// Adds one retain to each object handle in the value.
    fn retain(&self, rt: &mut Runtime)
        requires
            old(rt).wf(),
            can_retain(*old(rt), self.objects()),
        ensures
            final(rt).wf(),
            retained(*old(rt), *final(rt), self.objects()),
    ;

    /// Gives the value up, issuing one release for each object handle in it.
    fn release(self, rt: &mut Runtime)
        requires
            old(rt).wf(),
            can_release(*old(rt), self.objects()),
        ensures
            final(rt).wf(),
            released(*old(rt), *final(rt), self.objects()),
    ;
}

impl SwiftRet for bool {
    open spec fn objects(&self) -> Seq<usize> {
        Seq::empty()
    }

    fn retain(&self, rt: &mut Runtime) {
        proof {
            lemma_retain_nothing(*rt);
        }
    }

    fn release(self, rt: &mut Runtime) {
        proof {
            lemma_retain_nothing(*rt);
        }
    }
}

impl SwiftRet for isize {
    open spec fn objects(&self) -> Seq<usize> {
        Seq::empty()
    }

    fn retain(&self, rt: &mut Runtime) {
        proof {
            lemma_retain_nothing(*rt);
        }
    }

    fn release(self, rt: &mut Runtime) {
        proof {
            lemma_retain_nothing(*rt);
        }
    }
}

impl SwiftRet for i8 {
    open spec fn objects(&self) -> Seq<usize> {
        Seq::empty()
    }

    fn retain(&self, rt: &mut Runtime) {
        proof {
            lemma_retain_nothing(*rt);
        }
    }

    fn release(self, rt: &mut Runtime) {
        proof {
            lemma_retain_nothing(*rt);
        }
    }
}

impl SwiftRet for i16 {
    open spec fn objects(&self) -> Seq<usize> {
        Seq::empty()
    }

    fn retain(&self, rt: &mut Runtime) {
        proof {
            lemma_retain_nothing(*rt);
        }
    }

    fn release(self, rt: &mut Runtime) {
        proof {
            lemma_retain_nothing(*rt);
        }
    }
}

impl SwiftRet for i32 {
    open spec fn objects(&self) -> Seq<usize> {
        Seq::empty()
    }

    fn retain(&self, rt: &mut Runtime) {
        proof {
            lemma_retain_nothing(*rt);
        }
    }

    fn release(self, rt: &mut Runtime) {
        proof {
            lemma_retain_nothing(*rt);
        }
    }
}

impl SwiftRet for i64 {
    open spec fn objects(&self) -> Seq<usize> {
        Seq::empty()
    }

    fn retain(&self, rt: &mut Runtime) {
        proof {
            lemma_retain_nothing(*rt);
        }
    }

    fn release(self, rt: &mut Runtime) {
        proof {
            lemma_retain_nothing(*rt);
        }
    }
}

impl SwiftRet for usize {
    open spec fn objects(&self) -> Seq<usize> {
        Seq::empty()
    }

    fn retain(&self, rt: &mut Runtime) {
        proof {
            lemma_retain_nothing(*rt);
        }
    }

    fn release(self, rt: &mut Runtime) {
        proof {
            lemma_retain_nothing(*rt);
        }
    }
}

impl SwiftRet for u8 {
    open spec fn objects(&self) -> Seq<usize> {
        Seq::empty()
    }

    fn retain(&self, rt: &mut Runtime) {
        proof {
            lemma_retain_nothing(*rt);
        }
    }

    fn release(self, rt: &mut Runtime) {
        proof {
            lemma_retain_nothing(*rt);
        }
    }
}

impl SwiftRet for u16 {
    open spec fn objects(&self) -> Seq<usize> {
        Seq::empty()
    }

    fn retain(&self, rt: &mut Runtime) {
        proof {
            lemma_retain_nothing(*rt);
        }
    }

    fn release(self, rt: &mut Runtime) {
        proof {
            lemma_retain_nothing(*rt);
        }
    }
}

impl SwiftRet for u32 {
    open spec fn objects(&self) -> Seq<usize> {
        Seq::empty()
    }

    fn retain(&self, rt: &mut Runtime) {
        proof {
            lemma_retain_nothing(*rt);
        }
    }

    fn release(self, rt: &mut Runtime) {
        proof {
            lemma_retain_nothing(*rt);
        }
    }
}

impl SwiftRet for u64 {
    open spec fn objects(&self) -> Seq<usize> {
        Seq::empty()
    }

    fn retain(&self, rt: &mut Runtime) {
        proof {
            lemma_retain_nothing(*rt);
        }
    }

    fn release(self, rt: &mut Runtime) {
        proof {
            lemma_retain_nothing(*rt);
        }
    }
}

impl SwiftRet for () {
    open spec fn objects(&self) -> Seq<usize> {
        Seq::empty()
    }

    fn retain(&self, rt: &mut Runtime) {
        proof {
            lemma_retain_nothing(*rt);
        }
    }

    fn release(self, rt: &mut Runtime) {
        proof {
            lemma_retain_nothing(*rt);
        }
    }
}

impl<T: SwiftRet> SwiftRet for Option<T> {
    open spec fn objects(&self) -> Seq<usize> {
        match self {
            Some(v) => v.objects(),
            None => Seq::empty(),
        }
    }

    fn retain(&self, rt: &mut Runtime) {
        match self {
            Some(v) => v.retain(rt),
            None => {
                proof {
                    lemma_retain_nothing(*rt);
                }
            },
        }
    }

    fn release(self, rt: &mut Runtime) {
        match self {
            Some(v) => v.release(rt),
            None => {
                proof {
                    lemma_retain_nothing(*rt);
                }
            },
        }
    }
}

/// A record of two fields: its handles are those of each field, in order.
impl<A: SwiftRet, B: SwiftRet> SwiftRet for (A, B) {
    open spec fn objects(&self) -> Seq<usize> {
        self.0.objects() + self.1.objects()
    }

    fn retain(&self, rt: &mut Runtime) {
        let ghost r0 = *rt;
        proof {
            lemma_retain_concat(r0, r0, r0, self.0.objects(), self.1.objects());
        }
        self.0.retain(rt);
        let ghost r1 = *rt;
        proof {
            lemma_retain_concat(r0, r1, r1, self.0.objects(), self.1.objects());
        }
        self.1.retain(rt);
        proof {
            lemma_retain_concat(r0, r1, *rt, self.0.objects(), self.1.objects());
        }
    }

    fn release(self, rt: &mut Runtime) {
        let ghost r0 = *rt;
        let ghost (oa, ob) = (self.0.objects(), self.1.objects());
        let (a, b) = self;
        proof {
            lemma_release_concat(r0, r0, r0, oa, ob);
        }
        a.release(rt);
        let ghost r1 = *rt;
        proof {
            lemma_release_concat(r0, r1, r1, oa, ob);
        }
        b.release(rt);
        proof {
            lemma_release_concat(r0, r1, *rt, oa, ob);
        }
    }
}

/// A record of three fields: its handles are those of each field, in order.
impl<A: SwiftRet, B: SwiftRet, C: SwiftRet> SwiftRet for (A, B, C) {
    open spec fn objects(&self) -> Seq<usize> {
        self.0.objects() + self.1.objects() + self.2.objects()
    }

    fn retain(&self, rt: &mut Runtime) {
        let ghost r0 = *rt;
        let ghost (oa, ob, oc) = (self.0.objects(), self.1.objects(), self.2.objects());
        proof {
            lemma_retain_concat(r0, r0, r0, oa + ob, oc);
            lemma_retain_concat(r0, r0, r0, oa, ob);
        }
        self.0.retain(rt);
        let ghost r1 = *rt;
        proof {
            lemma_retain_concat(r0, r1, r1, oa, ob);
        }
        self.1.retain(rt);
        let ghost r2 = *rt;
        proof {
            lemma_retain_concat(r0, r1, r2, oa, ob);
            lemma_retain_concat(r0, r2, r2, oa + ob, oc);
        }
        self.2.retain(rt);
        proof {
            lemma_retain_concat(r0, r2, *rt, oa + ob, oc);
        }
    }

    fn release(self, rt: &mut Runtime) {
        let ghost r0 = *rt;
        let ghost (oa, ob, oc) = (self.0.objects(), self.1.objects(), self.2.objects());
        let (a, b, c) = self;
        proof {
            lemma_release_concat(r0, r0, r0, oa + ob, oc);
            lemma_release_concat(r0, r0, r0, oa, ob);
        }
        a.release(rt);
        let ghost r1 = *rt;
        proof {
            lemma_release_concat(r0, r1, r1, oa, ob);
        }
        b.release(rt);
        let ghost r2 = *rt;
        proof {
            lemma_release_concat(r0, r1, r2, oa, ob);
            lemma_release_concat(r0, r2, r2, oa + ob, oc);
        }
        c.release(rt);
        proof {
            lemma_release_concat(r0, r2, *rt, oa + ob, oc);
        }
    }
}

/// Taking ownership of a result touches nothing outside it: the objects
/// passed by reference keep their counts when the result holds none of
/// them, and an object that occurs once in the result gains exactly one
/// retain, the credit its new owner holds.
pub proof fn lemma_retain_spares_arguments<R: SwiftRet>(
    before: Runtime,
    after: Runtime,
    result: R,
    args: Seq<usize>,
)
    requires
        retained(before, after, result.objects()),
        forall|i: int| 0 <= i < args.len() ==> !result.objects().contains(#[trigger] args[i]),
    ensures
        forall|i: int| 0 <= i < args.len() ==> after.count(#[trigger] args[i]) == before.count(args[i]),
        forall|a: usize|
            #[trigger] result.objects().to_multiset().count(a) == 1 ==> after.count(a) == before.count(a) + 1,
{
    broadcast use vstd::seq_lib::group_to_multiset_ensures;

    assert forall|i: int| 0 <= i < args.len() implies after.count(#[trigger] args[i]) == before.count(args[i]) by {
        assert(!result.objects().contains(args[i]));
        assert(after.count(args[i]) == before.count(args[i]) + result.objects().to_multiset().count(args[i]));
    }
}

} // verus!
