//! Retain accounting of the managed runtime's objects, and its stack of
//! autorelease pools.
//!
//! An object is named by its address. Each live object has a retain count;
//! an autorelease pool holds deferred releases, which are issued when the
//! pool is popped. A retain credit that is not queued in a pool is owned by
//! some handle on the native side.
use vstd::prelude::*;
use vstd::multiset::Multiset;
use vstd::seq_lib::*;

verus! {

broadcast use vstd::seq_lib::group_to_multiset_ensures, vstd::multiset::group_multiset_axioms;

/// How many deferred releases of `a` wait in the given stack of pools.
pub open spec fn pending_in(pools: Seq<Seq<usize>>, a: usize) -> nat
    decreases pools.len(),
{
    if pools.len() == 0 {
        0
    } else {
        pending_in(pools.drop_last(), a) + pools.last().to_multiset().count(a)
    }
}

/// Pushing a pool adds the deferred releases that it holds.
pub proof fn lemma_pending_push(pools: Seq<Seq<usize>>, p: Seq<usize>, a: usize)
    ensures
        pending_in(pools.push(p), a) == pending_in(pools, a) + p.to_multiset().count(a),
{
    assert(pools.push(p).drop_last() =~= pools);
}

/// Queueing `x` in the innermost pool adds one deferred release of `x`.
pub proof fn lemma_pending_enqueue(pools: Seq<Seq<usize>>, x: usize, a: usize)
    requires
        pools.len() > 0,
    ensures
        pending_in(pools.update(pools.len() - 1, pools.last().push(x)), a) == pending_in(pools, a)
            + if a == x {
            1nat
        } else {
            0nat
        },
{
    let q = pools.update(pools.len() - 1, pools.last().push(x));
    assert(q.drop_last() =~= pools.drop_last());
    assert(q.last() == pools.last().push(x));
}

/// Each address in `objs` names a live object whose count can take one more
/// retain for each of its occurrences.
pub open spec fn can_retain(rt: Runtime, objs: Seq<usize>) -> bool {
    forall|a: usize|
        #[trigger] objs.to_multiset().count(a) > 0 ==> rt.count(a) > 0 && rt.count(a)
            + objs.to_multiset().count(a) <= usize::MAX
}

/// The native side owns a retain credit for each occurrence of an address in `objs`.
pub open spec fn can_release(rt: Runtime, objs: Seq<usize>) -> bool {
    forall|a: usize| #[trigger] objs.to_multiset().count(a) <= rt.owned(a)
}

/// One retain call for each address of `objs`, in order.
pub open spec fn retain_calls(objs: Seq<usize>) -> Seq<RuntimeCall> {
    objs.map_values(|a: usize| RuntimeCall::Retain(a))
}

/// One release call for each address of `objs`, in order.
pub open spec fn release_calls(objs: Seq<usize>) -> Seq<RuntimeCall> {
    objs.map_values(|a: usize| RuntimeCall::Release(a))
}

/// `after` is `before` with one retain added for each occurrence in `objs`,
/// issued in the order of `objs`.
pub open spec fn retained(before: Runtime, after: Runtime, objs: Seq<usize>) -> bool {
    &&& after.calls() == before.calls() + retain_calls(objs)
    &&& after.pools() == before.pools()
    &&& after.counts().len() == before.counts().len()
    &&& forall|a: usize| #[trigger] after.count(a) == before.count(a) + objs.to_multiset().count(a)
}

/// `after` is `before` with one release issued for each occurrence in
/// `objs`, in the order of `objs`.
pub open spec fn released(before: Runtime, after: Runtime, objs: Seq<usize>) -> bool {
    &&& after.calls() == before.calls() + release_calls(objs)
    &&& after.pools() == before.pools()
    &&& after.counts().len() == before.counts().len()
    &&& forall|a: usize| #[trigger] after.count(a) == before.count(a) - objs.to_multiset().count(a)
}

/// Retaining nothing leaves the runtime as it is.
pub proof fn lemma_retain_nothing(rt: Runtime)
    requires
        rt.wf(),
    ensures
        retained(rt, rt, Seq::empty()),
        released(rt, rt, Seq::empty()),
        can_retain(rt, Seq::empty()),
        can_release(rt, Seq::empty()),
{
    broadcast use vstd::multiset::group_multiset_properties;

    assert(Seq::<usize>::empty().to_multiset() =~= Multiset::empty());
    assert(rt.calls() + retain_calls(Seq::empty()) =~= rt.calls());
    assert(rt.calls() + release_calls(Seq::empty()) =~= rt.calls());
    assert forall|a: usize| #[trigger] Seq::<usize>::empty().to_multiset().count(a) <= rt.owned(a) by {
        assert(rt.pending(a) <= rt.count(a));
    }
}

/// Retaining `s1` and then `s2` retains their concatenation, and what may be
/// retained of the concatenation may be retained piecewise.
pub proof fn lemma_retain_concat(r0: Runtime, r1: Runtime, r2: Runtime, s1: Seq<usize>, s2: Seq<usize>)
    ensures
        can_retain(r0, s1 + s2) ==> can_retain(r0, s1),
        can_retain(r0, s1 + s2) && retained(r0, r1, s1) ==> can_retain(r1, s2),
        retained(r0, r1, s1) && retained(r1, r2, s2) ==> retained(r0, r2, s1 + s2),
{
    lemma_multiset_commutative(s1, s2);
    assert(retain_calls(s1 + s2) =~= retain_calls(s1) + retain_calls(s2));
    if retained(r0, r1, s1) && retained(r1, r2, s2) {
        assert(r2.calls() =~= r0.calls() + retain_calls(s1 + s2));
    }
    if can_retain(r0, s1 + s2) {
        assert forall|a: usize| #[trigger] s1.to_multiset().count(a) > 0 implies r0.count(a) > 0
            && r0.count(a) + s1.to_multiset().count(a) <= usize::MAX by {
            assert((s1 + s2).to_multiset().count(a) > 0);
        }
        if retained(r0, r1, s1) {
            assert forall|a: usize| #[trigger] s2.to_multiset().count(a) > 0 implies r1.count(a) > 0
                && r1.count(a) + s2.to_multiset().count(a) <= usize::MAX by {
                assert((s1 + s2).to_multiset().count(a) > 0);
            }
        }
    }
}

/// Releasing `s1` and then `s2` releases their concatenation, and what may be
/// released of the concatenation may be released piecewise.
pub proof fn lemma_release_concat(r0: Runtime, r1: Runtime, r2: Runtime, s1: Seq<usize>, s2: Seq<usize>)
    ensures
        can_release(r0, s1 + s2) ==> can_release(r0, s1),
        can_release(r0, s1 + s2) && released(r0, r1, s1) ==> can_release(r1, s2),
        released(r0, r1, s1) && released(r1, r2, s2) ==> released(r0, r2, s1 + s2),
{
    lemma_multiset_commutative(s1, s2);
    assert(release_calls(s1 + s2) =~= release_calls(s1) + release_calls(s2));
    if released(r0, r1, s1) && released(r1, r2, s2) {
        assert(r2.calls() =~= r0.calls() + release_calls(s1 + s2));
    }
    if can_release(r0, s1 + s2) {
        assert forall|a: usize| #[trigger] s1.to_multiset().count(a) <= r0.owned(a) by {
            assert((s1 + s2).to_multiset().count(a) <= r0.owned(a));
        }
        if released(r0, r1, s1) {
            assert forall|a: usize| #[trigger] s2.to_multiset().count(a) <= r1.owned(a) by {
                assert((s1 + s2).to_multiset().count(a) <= r0.owned(a));
            }
        }
    }
}

/// The multiset of a one-element sequence.
pub proof fn lemma_single(a: usize)
    ensures
        forall|b: usize| #[trigger] seq![a].to_multiset().count(b) == if a == b {
            1nat
        } else {
            0nat
        },
{
    broadcast use vstd::multiset::group_multiset_properties;

    assert(seq![a] =~= Seq::<usize>::empty().push(a));
    assert(Seq::<usize>::empty().to_multiset() =~= Multiset::empty());
}

/// A stack of pools that queues no release of `a` has none pending.
pub proof fn lemma_pending_absent(pools: Seq<Seq<usize>>, a: usize)
    requires
        forall|i: int, j: int| 0 <= i < pools.len() && 0 <= j < pools[i].len() ==> #[trigger] pools[i][j] != a,
    ensures
        pending_in(pools, a) == 0,
    decreases pools.len(),
{
    if pools.len() > 0 {
        let d = pools.drop_last();
        assert forall|i: int, j: int| 0 <= i < d.len() && 0 <= j < d[i].len() implies #[trigger] d[i][j] != a by {
            assert(d[i] == pools[i]);
        }
        lemma_pending_absent(d, a);
        if pools.last().to_multiset().count(a) > 0 {
            assert(pools.last().contains(a));
            let j = choose|j: int| 0 <= j < pools.last().len() && pools.last()[j] == a;
            assert(pools[pools.len() - 1][j] == a);
        }
    }
}

/// Pools nest as a stack. Push a pool A, queue releases `qa` in it, push a
/// pool B, queue `qb` in it, pop B, then pop A: the stack is as it was, no
/// release stays pending, and each queued release has been issued once.
pub proof fn lemma_nested_pools(
    s0: Runtime,
    s1: Runtime,
    s2: Runtime,
    s3: Runtime,
    s4: Runtime,
    qa: Seq<usize>,
    qb: Seq<usize>,
)
    requires
        s0.wf(),
        s1.counts() == s0.counts(),
        s1.pools() == s0.pools().push(qa),
        s2.counts() == s1.counts(),
        s2.pools() == s1.pools().push(qb),
        s3.pools() == s2.pools().drop_last(),
        forall|a: usize| #[trigger] s3.count(a) == s2.count(a) - s2.pools().last().to_multiset().count(a),
        s4.pools() == s3.pools().drop_last(),
        forall|a: usize| #[trigger] s4.count(a) == s3.count(a) - s3.pools().last().to_multiset().count(a),
    ensures
        s4.pools() == s0.pools(),
        forall|a: usize| #[trigger] s4.pending(a) == s0.pending(a),
        forall|a: usize|
            #[trigger] s4.count(a) == s0.count(a) - qa.to_multiset().count(a) - qb.to_multiset().count(a),
{
    assert(s1.pools().push(qb).drop_last() =~= s1.pools());
    assert(s0.pools().push(qa).drop_last() =~= s0.pools());
    assert forall|a: usize|
        #[trigger] s4.count(a) == s0.count(a) - qa.to_multiset().count(a) - qb.to_multiset().count(a) by {
        assert(s3.count(a) == s2.count(a) - qb.to_multiset().count(a));
    }
}

/// A call into the runtime's memory manager that the native side issues.
#[derive(Clone, Copy, Debug, PartialEq, Eq, Structural)]
pub enum RuntimeCall {
    /// One retain of the object at the address.
    Retain(usize),
    /// One release of the object at the address.
    Release(usize),
    /// Push of an autorelease pool.
    PoolPush,
    /// Pop of the innermost autorelease pool.
    PoolPop,
}

/// The managed runtime's retain counts and autorelease pools, with the
/// calls the native side has issued to its memory manager, in order.
pub struct Runtime {
    counts: Vec<usize>,
    pools: Vec<Vec<usize>>,
    calls: Vec<RuntimeCall>,
}

/// The context token of one pushed autorelease pool: its depth in the stack.
pub struct AutoreleasePool {
    depth: usize,
}

impl AutoreleasePool {
    /// The position of the pool in the stack, counted from the outermost.
    pub closed spec fn depth(&self) -> nat {
        self.depth as nat
    }
}

impl Runtime {
    /// Retain count of each object ever allocated, indexed by address.
    pub closed spec fn counts(&self) -> Seq<usize> {
        self.counts@
    }

    /// The retains, releases, pushes and pops issued so far, in order.
    pub closed spec fn calls(&self) -> Seq<RuntimeCall> {
        self.calls@
    }

    /// The stack of pools, outermost first; each lists its deferred releases.
    pub closed spec fn pools(&self) -> Seq<Seq<usize>> {
        self.pools@.map_values(|p: Vec<usize>| p@)
    }

    pub open spec fn allocated(&self, a: usize) -> bool {
        a < self.counts().len()
    }

    /// Retain count of `a`; zero once it has been freed.
    pub open spec fn count(&self, a: usize) -> nat {
        if self.allocated(a) {
            self.counts()[a as int] as nat
        } else {
            0
        }
    }

    /// Deferred releases of `a` queued in the pools.
    pub open spec fn pending(&self, a: usize) -> nat {
        pending_in(self.pools(), a)
    }

    /// Retain credits of `a` held by the native side.
    pub open spec fn owned(&self, a: usize) -> int {
        self.count(a) - self.pending(a)
    }

    pub open spec fn depth(&self) -> nat {
        self.pools().len()
    }

    /// Every queued release names an allocated object that has a credit for it.
    pub open spec fn wf(&self) -> bool {
        &&& forall|a: usize| #[trigger] self.pending(a) <= self.count(a)
        &&& forall|i: int, j: int|
            0 <= i < self.pools().len() && 0 <= j < self.pools()[i].len() ==> self.allocated(
                #[trigger] self.pools()[i][j],
            )
    }

    /// A runtime with no objects and no pools.
    pub fn new() -> (r: Runtime)
        ensures
            r.wf(),
            r.counts() == Seq::<usize>::empty(),
            r.pools() == Seq::<Seq<usize>>::empty(),
            r.calls() == Seq::<RuntimeCall>::empty(),
    {
        let r = Runtime { counts: Vec::new(), pools: Vec::new(), calls: Vec::new() };
        assert(r.pools() =~= Seq::<Seq<usize>>::empty());
        r
    }

    /// Retain count of `a`, zero for an address never allocated.
    pub fn retain_count(&self, a: usize) -> (r: usize)
        ensures
            r as nat == self.count(a),
    {
        if a < self.counts.len() {
            self.counts[a]
        } else {
            0
        }
    }

    /// Number of objects ever allocated; their addresses are those below it.
    pub fn object_count(&self) -> (r: usize)
        ensures
            r == self.counts().len(),
    {
        self.counts.len()
    }

    /// Number of pools on the stack.
    pub fn pool_depth(&self) -> (r: usize)
        ensures
            r as nat == self.depth(),
    {
        self.pools.len()
    }

    /// Allocates an object at the next address, with one retain credit.
    pub fn allocate(&mut self) -> (r: usize)
        requires
            old(self).wf(),
            old(self).counts().len() < usize::MAX,
        ensures
            final(self).wf(),
            r as nat == old(self).counts().len(),
            final(self).counts() == old(self).counts().push(1),
            final(self).pools() == old(self).pools(),
            final(self).calls() == old(self).calls(),
            final(self).owned(r) == 1,
    {
        let r = self.counts.len();
        self.counts.push(1);
        proof {
            let p = self.pools();
            assert(p == old(self).pools());
            assert forall|i: int, j: int| 0 <= i < p.len() && 0 <= j < p[i].len() implies #[trigger] p[i][j] != r by {
                assert(old(self).allocated(old(self).pools()[i][j]));
            }
            lemma_pending_absent(p, r);
            assert forall|a: usize| #[trigger] self.pending(a) <= self.count(a) by {
                assert(old(self).pending(a) <= old(self).count(a));
            }
        }
        r
    }

    /// Adds one retain credit to the live object `a`.
    pub fn retain(&mut self, a: usize)
        requires
            old(self).wf(),
            old(self).count(a) > 0,
            old(self).count(a) < usize::MAX,
        ensures
            final(self).wf(),
            final(self).counts() == old(self).counts().update(a as int, (old(self).count(a) + 1) as usize),
            final(self).pools() == old(self).pools(),
            retained(*old(self), *final(self), seq![a]),
    {
        proof {
            lemma_single(a);
        }
        let c = self.counts[a];
        self.counts.set(a, c + 1);
        self.calls.push(RuntimeCall::Retain(a));
        proof {
            assert(retain_calls(seq![a]) =~= seq![RuntimeCall::Retain(a)]);
            assert(self.calls() =~= old(self).calls() + retain_calls(seq![a]));
        }
        proof {
            assert forall|b: usize| #[trigger] self.pending(b) <= self.count(b) by {
                assert(old(self).pending(b) <= old(self).count(b));
            }
        }
    }

    /// Gives back one retain credit of `a` that the native side owns.
    pub fn release(&mut self, a: usize)
        requires
            old(self).wf(),
            old(self).owned(a) > 0,
        ensures
            final(self).wf(),
            final(self).counts() == old(self).counts().update(a as int, (old(self).count(a) - 1) as usize),
            final(self).pools() == old(self).pools(),
            released(*old(self), *final(self), seq![a]),
    {
        proof {
            lemma_single(a);
        }
        let c = self.counts[a];
        self.counts.set(a, c - 1);
        self.calls.push(RuntimeCall::Release(a));
        proof {
            assert(release_calls(seq![a]) =~= seq![RuntimeCall::Release(a)]);
            assert(self.calls() =~= old(self).calls() + release_calls(seq![a]));
        }
        proof {
            assert forall|b: usize| #[trigger] self.pending(b) <= self.count(b) by {
                assert(old(self).pending(b) <= old(self).count(b));
            }
        }
    }

    /// Hands one owned retain credit of `a` to the innermost pool, to be
    /// released when that pool is popped.
    pub fn autorelease(&mut self, a: usize)
        requires
            old(self).wf(),
            old(self).depth() > 0,
            old(self).owned(a) > 0,
        ensures
            final(self).wf(),
            final(self).counts() == old(self).counts(),
            final(self).calls() == old(self).calls(),
            final(self).pools() == old(self).pools().update(
                old(self).depth() - 1,
                old(self).pools().last().push(a),
            ),
            forall|b: usize| #[trigger] final(self).pending(b) == old(self).pending(b) + if b == a {
                1nat
            } else {
                0nat
            },
    {
        let ghost p0 = self.pools();
        let last = self.pools.len() - 1;
        let mut top = self.pools.pop().unwrap();
        top.push(a);
        self.pools.push(top);
        proof {
            assert(self.pools() =~= p0.update(p0.len() - 1, p0.last().push(a)));
            assert forall|b: usize| #[trigger] self.pending(b) == old(self).pending(b) + if b == a {
                1nat
            } else {
                0nat
            } by {
                lemma_pending_enqueue(p0, a, b);
            }
            assert forall|b: usize| #[trigger] self.pending(b) <= self.count(b) by {
                lemma_pending_enqueue(p0, a, b);
                assert(old(self).pending(b) <= old(self).count(b));
            }
            assert forall|i: int, j: int|
                0 <= i < self.pools().len() && 0 <= j < self.pools()[i].len() implies self.allocated(
                    #[trigger] self.pools()[i][j],
                ) by {
                if i < last || j < p0.last().len() {
                    assert(self.pools()[i][j] == p0[i][j]);
                }
            }
        }
    }

    /// Pushes a new, empty autorelease pool and returns its context token.
    pub fn pool_push(&mut self) -> (r: AutoreleasePool)
        requires
            old(self).wf(),
        ensures
            final(self).wf(),
            r.depth() == old(self).depth(),
            final(self).counts() == old(self).counts(),
            final(self).pools() == old(self).pools().push(Seq::<usize>::empty()),
            final(self).calls() == old(self).calls().push(RuntimeCall::PoolPush),
            forall|a: usize| #[trigger] final(self).pending(a) == old(self).pending(a),
    {
        let ghost p0 = self.pools();
        let depth = self.pools.len();
        self.pools.push(Vec::new());
        self.calls.push(RuntimeCall::PoolPush);
        proof {
            assert(self.pools() =~= p0.push(Seq::<usize>::empty()));
            assert forall|b: usize| #[trigger] self.pending(b) == old(self).pending(b) by {
                lemma_pending_push(p0, Seq::<usize>::empty(), b);
            }
            assert forall|b: usize| #[trigger] self.pending(b) <= self.count(b) by {
                lemma_pending_push(p0, Seq::<usize>::empty(), b);
                assert(old(self).pending(b) <= old(self).count(b));
            }
            assert forall|i: int, j: int|
                0 <= i < self.pools().len() && 0 <= j < self.pools()[i].len() implies self.allocated(
                    #[trigger] self.pools()[i][j],
                ) by {
                assert(self.pools()[i][j] == p0[i][j]);
            }
        }
        AutoreleasePool { depth }
    }

    /// Pops the innermost pool, which must be the one `pool` names, issuing
    /// every release queued in it.
    pub fn pool_pop(&mut self, pool: AutoreleasePool)
        requires
            old(self).wf(),
            pool.depth() + 1 == old(self).depth(),
        ensures
            final(self).wf(),
            final(self).pools() == old(self).pools().drop_last(),
            final(self).calls() == old(self).calls().push(RuntimeCall::PoolPop),
            final(self).counts().len() == old(self).counts().len(),
            forall|a: usize|
                #[trigger] final(self).count(a) == old(self).count(a) - old(
                    self,
                ).pools().last().to_multiset().count(a),
            forall|a: usize|
                #[trigger] final(self).pending(a) == old(self).pending(a) - old(
                    self,
                ).pools().last().to_multiset().count(a),
    {
        let ghost p0 = self.pools();
        let ghost c0 = self.counts();
        let top = self.pools.pop().unwrap();
        proof {
            assert(self.pools() =~= p0.drop_last());
            assert(top@ == p0.last());
            assert forall|a: usize| #[trigger] pending_in(p0, a) <= old(self).count(a) by {
                assert(old(self).pending(a) <= old(self).count(a));
            }
        }
        let mut i: usize = 0;
        while i < top.len()
            invariant
                0 <= i <= top@.len(),
                p0.len() > 0,
                top@ == p0.last(),
                self.pools() == p0.drop_last(),
                self.counts().len() == c0.len(),
                c0 == old(self).counts(),
                self.calls() == old(self).calls(),
                forall|a: usize| #[trigger] pending_in(p0, a) <= old(self).count(a),
                forall|j: int| 0 <= j < top@.len() ==> (#[trigger] top@[j]) < c0.len(),
                forall|a: usize|
                    a < c0.len() ==> self.counts()[a as int] + top@.subrange(0, i as int).to_multiset().count(a)
                        == #[trigger] c0[a as int],
            decreases top@.len() - i,
        {
            let x = top[i];
            proof {
                let pre = top@.subrange(0, i as int + 1);
                assert(top@ =~= pre + top@.subrange(i as int + 1, top@.len() as int));
                lemma_multiset_commutative(pre, top@.subrange(i as int + 1, top@.len() as int));
                assert(pre =~= top@.subrange(0, i as int).push(x));
                assert(pending_in(p0, x) == pending_in(p0.drop_last(), x) + p0.last().to_multiset().count(x));
                assert(pending_in(p0, x) <= old(self).count(x));
                assert(pre.to_multiset().count(x) == top@.subrange(0, i as int).to_multiset().count(x) + 1);
                assert(top@.to_multiset().count(x) >= pre.to_multiset().count(x));
                assert(x < c0.len());
                assert(old(self).count(x) == c0[x as int]);
                assert(top@.subrange(0, i as int).to_multiset().count(x) + 1 <= c0[x as int]);
            }
            let c = self.counts[x];
            self.counts.set(x, c - 1);
            proof {
                assert(top@.subrange(0, i as int + 1) =~= top@.subrange(0, i as int).push(x));
            }
            i = i + 1;
        }
        self.calls.push(RuntimeCall::PoolPop);
        proof {
            assert(top@.subrange(0, top@.len() as int) =~= top@);
            assert forall|a: usize| #[trigger] self.count(a) == old(self).count(a) - p0.last().to_multiset().count(a) by {
                if a >= c0.len() {
                    if p0.last().to_multiset().count(a) > 0 {
                        let j = choose|j: int| 0 <= j < p0.last().len() && p0.last()[j] == a;
                        assert(top@[j] == a);
                    }
                }
            }
            assert forall|a: usize|
                #[trigger] self.pending(a) == old(self).pending(a) - p0.last().to_multiset().count(a) by {
                assert(pending_in(p0, a) == pending_in(p0.drop_last(), a) + p0.last().to_multiset().count(a));
            }
            assert forall|a: usize| #[trigger] self.pending(a) <= self.count(a) by {
                assert(pending_in(p0, a) == pending_in(p0.drop_last(), a) + p0.last().to_multiset().count(a));
                assert(old(self).pending(a) <= old(self).count(a));
            }
            assert forall|i: int, j: int|
                0 <= i < self.pools().len() && 0 <= j < self.pools()[i].len() implies self.allocated(
                    #[trigger] self.pools()[i][j],
                ) by {
                assert(self.pools()[i][j] == p0[i][j]);
            }
        }
    }

    /// The retains, releases, pushes and pops issued so far, in order, for
    /// the runtime's own entry points to carry out.
    pub fn issued_calls(&self) -> (r: &[RuntimeCall])
        ensures
            r@ == self.calls(),
    {
        self.calls.as_slice()
    }
}

} // verus!
