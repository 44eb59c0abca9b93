//! Autorelease pools around a stretch of work.
use vstd::prelude::*;

use crate::runtime::{AutoreleasePool, Runtime, RuntimeCall};

verus! {

/// An autorelease pool opened around a stretch of work. The transient
/// objects that the work leaves to the pool are released when the scope is
/// closed. Closing consumes the scope, so its pool is popped once, and it
/// hands back the work's outcome as it is: a failed outcome closes the scope
/// just as a successful one does.
pub struct AutoreleaseScope {
    pool: AutoreleasePool,
}

impl AutoreleaseScope {
    /// Position of the scope's pool in the stack.
    pub closed spec fn depth(&self) -> nat {
        self.pool.depth()
    }

    /// Pushes the scope's pool.
    pub fn open(rt: &mut Runtime) -> (r: AutoreleaseScope)
        requires
            old(rt).wf(),
        ensures
            final(rt).wf(),
            r.depth() == old(rt).depth(),
            final(rt).counts() == old(rt).counts(),
            final(rt).pools() == old(rt).pools().push(Seq::<usize>::empty()),
            final(rt).calls() == old(rt).calls().push(RuntimeCall::PoolPush),
    {
        AutoreleaseScope { pool: rt.pool_push() }
    }

    /// Pops the scope's pool, which must again be the innermost, issuing the
    /// releases queued in it, and returns `outcome` unchanged.
    pub fn close<R>(self, rt: &mut Runtime, outcome: R) -> (r: R)
        requires
            old(rt).wf(),
            self.depth() + 1 == old(rt).depth(),
        ensures
            r == outcome,
            final(rt).wf(),
            final(rt).pools() == old(rt).pools().drop_last(),
            final(rt).calls() == old(rt).calls().push(RuntimeCall::PoolPop),
            final(rt).counts().len() == old(rt).counts().len(),
            forall|a: usize|
                #[trigger] final(rt).count(a) == old(rt).count(a) - old(rt).pools().last().to_multiset().count(
                    a,
                ),
    {
        rt.pool_pop(self.pool);
        outcome
    }
}

} // verus!
