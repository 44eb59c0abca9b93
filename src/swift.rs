//! Objects as arguments of foreign calls, and the bracket around a call.
use vstd::prelude::*;

use crate::runtime::{
    can_retain, lemma_pending_absent, lemma_pending_push, lemma_single, released, retain_calls,
    AutoreleasePool, Runtime, RuntimeCall,
};
use crate::swift_ret::SwiftRet;
use crate::types::object::SRObject;

verus! {

/// A type that the managed runtime represents as an object.
pub trait SwiftObject: Sized {
    /// Shape of the payload of the object at the root of the value.
    type Shape;

    /// The handle on the object at the root of the value.
    spec fn root(&self) -> SRObject<Self::Shape>;

    /// The handle on the object at the root of the value.
    fn get_object(&self) -> (r: &SRObject<Self::Shape>)
        ensures
            *r == self.root(),
    ;
}

/// A borrowed reference to an object, handed to a foreign function for the
/// length of one call. It carries no retain credit: neither side releases it.
pub struct SwiftRef<'a, T> {
    addr: usize,
    target: &'a T,
}

impl<'a, T> SwiftRef<'a, T> {
    /// Address of the referenced object.
    pub closed spec fn addr(&self) -> usize {
        self.addr
    }

    /// The value whose object is referenced.
    pub closed spec fn value(&self) -> &'a T {
        self.target
    }

    /// Address of the referenced object.
    pub fn address(&self) -> (r: usize)
        ensures
            r == self.addr(),
    {
        self.addr
    }

    /// The value whose object is referenced, for the callee to read.
    pub fn target(&self) -> (r: &'a T)
        ensures
            r == self.value(),
    {
        self.target
    }
}

/// Borrows `value` as an argument of a foreign call.
pub fn swift_ref<'a, T: SwiftObject>(value: &'a T) -> (r: SwiftRef<'a, T>)
    ensures
        r.addr() == value.root().addr(),
        r.value() == value,
{
    let addr = value.get_object().address();
    SwiftRef { addr, target: value }
}

/// The bracket around one foreign call, opened by [`begin_call`].
pub struct CallScope {
    pool: Option<AutoreleasePool>,
}

impl CallScope {
    /// The pool pushed for the call, if it returns a value.
    pub closed spec fn pool(&self) -> Option<AutoreleasePool> {
        self.pool
    }

    /// The call has a pool of its own, at position `depth` of the stack.
    pub open spec fn holds_pool_at(&self, depth: nat) -> bool {
        &&& self.pool() is Some
        &&& self.pool().unwrap().depth() == depth
    }

    /// Closes the bracket of a call that returned `raw`, and hands `raw` to
    /// the caller. Every object handle in the result is retained first, and
    /// only then is the call's pool popped, so that the pool's releases
    /// cannot free what the caller now owns.
    pub fn finish<R: SwiftRet>(self, rt: &mut Runtime, raw: R) -> (r: R)
        requires
            old(rt).wf(),
            self.holds_pool_at((old(rt).depth() - 1) as nat),
            old(rt).depth() > 0,
            can_retain(*old(rt), raw.objects()),
        ensures
            r == raw,
            final(rt).wf(),
            final(rt).pools() == old(rt).pools().drop_last(),
            final(rt).calls() == old(rt).calls() + retain_calls(raw.objects()) + seq![RuntimeCall::PoolPop],
            final(rt).counts().len() == old(rt).counts().len(),
            forall|a: usize|
                #[trigger] final(rt).count(a) == old(rt).count(a) + raw.objects().to_multiset().count(a)
                    - old(rt).pools().last().to_multiset().count(a),
    {
        raw.retain(rt);
        match self.pool {
            Some(pool) => rt.pool_pop(pool),
            None => {},
        }
        proof {
            assert(rt.calls() =~= old(rt).calls() + retain_calls(raw.objects()) + seq![RuntimeCall::PoolPop]);
        }
        raw
    }

    /// Closes the bracket of a call that returned nothing.
    pub fn finish_void(self)
        requires
            self.pool() is None,
    {
    }
}

/// Opens the bracket around a foreign call. A call that returns a value gets
/// an autorelease pool of its own, for the transient objects that the call
/// leaves behind; one that returns nothing needs none.
pub fn begin_call(rt: &mut Runtime, returns_value: bool) -> (r: CallScope)
    requires
        old(rt).wf(),
    ensures
        final(rt).wf(),
        final(rt).counts() == old(rt).counts(),
        returns_value ==> final(rt).pools() == old(rt).pools().push(Seq::<usize>::empty())
            && final(rt).calls() == old(rt).calls().push(RuntimeCall::PoolPush) && r.holds_pool_at(
            old(rt).depth(),
        ),
        !returns_value ==> final(rt).pools() == old(rt).pools() && final(rt).calls() == old(rt).calls()
            && r.pool() is None,
{
    if returns_value {
        let pool = rt.pool_push();
        CallScope { pool: Some(pool) }
    } else {
        CallScope { pool: None }
    }
}

/// A call whose result is a fresh object leaves its arguments' retain counts
/// as they were, and leaves the caller exactly one retain credit of the
/// result, which no pool will take back.
///
/// The call goes through [`begin_call`], the foreign function allocating
/// `ret` and queueing its one credit in the call's pool, and
/// [`CallScope::finish`] on that result.
pub proof fn lemma_fresh_result_balance(
    before: Runtime,
    entered: Runtime,
    returned: Runtime,
    after: Runtime,
    args: Seq<usize>,
    ret: usize,
)
    requires
        before.wf(),
        forall|i: int| 0 <= i < args.len() ==> before.allocated(#[trigger] args[i]),
        entered.counts() == before.counts(),
        entered.pools() == before.pools().push(Seq::<usize>::empty()),
        ret == entered.counts().len(),
        returned.counts() == entered.counts().push(1),
        returned.pools() == entered.pools().update(entered.pools().len() - 1, seq![ret]),
        after.pools() == returned.pools().drop_last(),
        forall|a: usize|
            #[trigger] after.count(a) == returned.count(a) + seq![ret].to_multiset().count(a)
                - returned.pools().last().to_multiset().count(a),
    ensures
        forall|i: int| 0 <= i < args.len() ==> after.count(#[trigger] args[i]) == before.count(args[i]),
        after.count(ret) == 1,
        after.owned(ret) == 1,
        after.pools() == before.pools(),
{
    lemma_single(ret);
    assert(returned.pools().last() == seq![ret]);
    assert(returned.pools().drop_last() =~= before.pools());
    assert forall|i: int, j: int|
        0 <= i < before.pools().len() && 0 <= j < before.pools()[i].len() implies #[trigger] before.pools()[i][j] != ret by {
        assert(before.allocated(before.pools()[i][j]));
    }
    lemma_pending_absent(before.pools(), ret);
    assert forall|i: int| 0 <= i < args.len() implies after.count(#[trigger] args[i]) == before.count(args[i]) by {
        assert(before.allocated(args[i]));
        assert(args[i] != ret);
        assert(returned.count(args[i]) == before.count(args[i]));
    }
    assert(returned.count(ret) == 1);
}

/// A whole round: a call whose result is made of fresh objects, then giving
/// the result up. Between the two the caller owns exactly one retain credit
/// of each result object and no pool holds any; afterwards every object that
/// existed before the call has its count back, every result object is freed,
/// and the pools are as they were. A loop of such rounds, however long, so
/// leaves no object more alive than before it.
///
/// The call goes through [`begin_call`], the foreign function allocating the
/// objects `fresh` and queueing the one credit of each in the call's pool,
/// and [`CallScope::finish`] on a result whose handles are `fresh`; the result
/// is then given up with [`SwiftRet::release`], from `after` to `dropped`.
pub proof fn lemma_call_then_drop(
    before: Runtime,
    entered: Runtime,
    returned: Runtime,
    after: Runtime,
    dropped: Runtime,
    fresh: Seq<usize>,
)
    requires
        before.wf(),
        entered.counts() == before.counts(),
        entered.pools() == before.pools().push(Seq::<usize>::empty()),
        fresh.no_duplicates(),
        forall|i: int| 0 <= i < fresh.len() ==> !entered.allocated(#[trigger] fresh[i]),
        forall|i: int| 0 <= i < fresh.len() ==> returned.count(#[trigger] fresh[i]) == 1,
        forall|a: usize| !fresh.contains(a) ==> #[trigger] returned.count(a) == entered.count(a),
        returned.pools() == entered.pools().update(entered.pools().len() - 1, fresh),
        after.pools() == returned.pools().drop_last(),
        forall|a: usize|
            #[trigger] after.count(a) == returned.count(a) + fresh.to_multiset().count(a)
                - returned.pools().last().to_multiset().count(a),
    ensures
        forall|i: int| 0 <= i < fresh.len() ==> after.owned(#[trigger] fresh[i]) == 1,
        after.pools() == before.pools(),
        released(after, dropped, fresh) ==> (forall|a: usize|
            before.allocated(a) ==> #[trigger] dropped.count(a) == before.count(a)),
        released(after, dropped, fresh) ==> (forall|i: int|
            0 <= i < fresh.len() ==> dropped.count(#[trigger] fresh[i]) == 0),
        released(after, dropped, fresh) ==> dropped.pools() == before.pools(),
{
    broadcast use vstd::seq_lib::group_to_multiset_ensures, vstd::multiset::group_multiset_axioms;

    fresh.lemma_multiset_has_no_duplicates();
    assert(returned.pools().last() == fresh);
    assert(returned.pools().drop_last() =~= before.pools());
    assert forall|a: usize| before.allocated(a) && released(after, dropped, fresh) implies #[trigger] dropped.count(a) == before.count(a) by {
        if fresh.contains(a) {
            let i = choose|i: int| 0 <= i < fresh.len() && fresh[i] == a;
            assert(!entered.allocated(fresh[i]));
        }
        assert(fresh.to_multiset().count(a) == 0);
        assert(after.count(a) == returned.count(a));
    }
    assert forall|i: int| 0 <= i < fresh.len() implies after.owned(#[trigger] fresh[i]) == 1
        && (released(after, dropped, fresh) ==> dropped.count(fresh[i]) == 0) by {
        let x = fresh[i];
        assert(fresh.contains(x));
        assert(fresh.to_multiset().count(x) == 1);
        assert forall|k: int, j: int|
            0 <= k < before.pools().len() && 0 <= j < before.pools()[k].len() implies #[trigger] before.pools()[k][j]
            != x by {
            assert(before.allocated(before.pools()[k][j]));
        }
        lemma_pending_absent(before.pools(), x);
    }
}

/// Pools nest around calls. Push a pool A, push a pool B, make inside B a
/// call whose result is made of fresh objects and give the result up, then
/// pop B and pop A: the stack is as it was, every object that existed before
/// has its count back, and no object made inside the pools stays alive.
///
/// The round inside B is the one of [`lemma_call_then_drop`], starting from
/// the runtime `s2` with both pools pushed.
pub proof fn lemma_call_in_nested_pools(
    s0: Runtime,
    s1: Runtime,
    s2: Runtime,
    entered: Runtime,
    returned: Runtime,
    after: Runtime,
    s3: Runtime,
    s4: Runtime,
    s5: Runtime,
    fresh: Seq<usize>,
)
    requires
        s0.wf(),
        s1.counts() == s0.counts(),
        s1.pools() == s0.pools().push(Seq::<usize>::empty()),
        s2.counts() == s1.counts(),
        s2.pools() == s1.pools().push(Seq::<usize>::empty()),
        entered.counts() == s2.counts(),
        entered.pools() == s2.pools().push(Seq::<usize>::empty()),
        fresh.no_duplicates(),
        forall|i: int| 0 <= i < fresh.len() ==> !entered.allocated(#[trigger] fresh[i]),
        forall|i: int| 0 <= i < fresh.len() ==> returned.count(#[trigger] fresh[i]) == 1,
        forall|a: usize| !fresh.contains(a) ==> #[trigger] returned.count(a) == entered.count(a),
        returned.pools() == entered.pools().update(entered.pools().len() - 1, fresh),
        after.pools() == returned.pools().drop_last(),
        forall|a: usize|
            #[trigger] after.count(a) == returned.count(a) + fresh.to_multiset().count(a)
                - returned.pools().last().to_multiset().count(a),
        released(after, s3, fresh),
        s4.pools() == s3.pools().drop_last(),
        forall|a: usize| #[trigger] s4.count(a) == s3.count(a) - s3.pools().last().to_multiset().count(a),
        s5.pools() == s4.pools().drop_last(),
        forall|a: usize| #[trigger] s5.count(a) == s4.count(a) - s4.pools().last().to_multiset().count(a),
    ensures
        s5.pools() == s0.pools(),
        forall|a: usize| s0.allocated(a) ==> #[trigger] s5.count(a) == s0.count(a),
        forall|i: int| 0 <= i < fresh.len() ==> s5.count(#[trigger] fresh[i]) == 0,
{
    broadcast use vstd::multiset::group_multiset_properties, vstd::seq_lib::group_to_multiset_ensures;

    assert(Seq::<usize>::empty().to_multiset() =~= vstd::multiset::Multiset::empty());
    assert forall|a: usize| #[trigger] s2.pending(a) <= s2.count(a) by {
        lemma_pending_push(s0.pools(), Seq::<usize>::empty(), a);
        lemma_pending_push(s1.pools(), Seq::<usize>::empty(), a);
        assert(s0.pending(a) <= s0.count(a));
    }
    assert forall|i: int, j: int|
        0 <= i < s2.pools().len() && 0 <= j < s2.pools()[i].len() implies s2.allocated(
            #[trigger] s2.pools()[i][j],
        ) by {
        assert(s2.pools()[i] == s0.pools()[i]);
        assert(s0.allocated(s0.pools()[i][j]));
    }
    lemma_call_then_drop(s2, entered, returned, after, s3, fresh);
    assert(s3.pools().last() == Seq::<usize>::empty());
    assert(s3.pools().drop_last() =~= s1.pools());
    assert(s4.pools().last() == Seq::<usize>::empty());
    assert(s4.pools().drop_last() =~= s0.pools());
    assert forall|i: int| 0 <= i < fresh.len() implies s5.count(#[trigger] fresh[i]) == 0 by {
        assert(s4.count(fresh[i]) == s3.count(fresh[i]));
    }
    assert forall|a: usize| s0.allocated(a) implies #[trigger] s5.count(a) == s0.count(a) by {
        assert(s2.allocated(a));
        assert(s4.count(a) == s3.count(a));
    }
}

} // verus!
