//! Retain balancing for calls whose result may be one of their arguments.
//!
//! Each object handle seen among a call's arguments, or in its result, is an
//! occurrence: the object's address, and whether it was passed by reference
//! (`true`) or as a value (`false`). From the occurrences the balancing
//! derives, per address, how many retains (positive) or releases (negative)
//! set the counts right after the call.
use vstd::prelude::*;

use crate::runtime::{lemma_single, released, Runtime};

verus! {

/// How many occurrences of `a` in `s` carry the tag `by_ref`.
pub open spec fn tally(s: Seq<(usize, bool)>, a: usize, by_ref: bool) -> nat
    decreases s.len(),
{
    if s.len() == 0 {
        0
    } else {
        tally(s.drop_last(), a, by_ref) + if s.last() == (a, by_ref) {
            1nat
        } else {
            0nat
        }
    }
}

/// `a` occurs in `s`, with either tag.
pub open spec fn mentions(s: Seq<(usize, bool)>, a: usize) -> bool {
    exists|i: int| 0 <= i < s.len() && (#[trigger] s[i]).0 == a
}

/// `a` has an entry in the adjustments `out`.
pub open spec fn listed(out: Seq<(usize, i64)>, a: usize) -> bool {
    exists|k: int| 0 <= k < out.len() && (#[trigger] out[k]).0 == a
}

/// The retains (positive) or releases (negative) owed to `a` after a call
/// with argument occurrences `args` and result occurrences `ret`.
///
/// An address on both sides gets the smaller of its value occurrences in the
/// result and its reference occurrences among the arguments; one only among
/// the arguments gives back its value occurrences; one only in the result
/// gets its value occurrences.
pub open spec fn adjustment(args: Seq<(usize, bool)>, ret: Seq<(usize, bool)>, a: usize) -> int {
    if mentions(args, a) && mentions(ret, a) {
        if tally(ret, a, false) <= tally(args, a, true) {
            tally(ret, a, false) as int
        } else {
            tally(args, a, true) as int
        }
    } else if mentions(args, a) {
        -(tally(args, a, false) as int)
    } else {
        tally(ret, a, false) as int
    }
}

/// A tally counts occurrences, so it never exceeds the sequence's length.
pub proof fn lemma_tally_bound(s: Seq<(usize, bool)>, a: usize, by_ref: bool)
    ensures
        tally(s, a, by_ref) <= s.len(),
    decreases s.len(),
{
    if s.len() > 0 {
        lemma_tally_bound(s.drop_last(), a, by_ref);
    }
}

fn count_tagged(s: &Vec<(usize, bool)>, a: usize, by_ref: bool) -> (r: usize)
    ensures
        r == tally(s@, a, by_ref),
{
    let mut r: usize = 0;
    let mut i: usize = 0;
    while i < s.len()
        invariant
            0 <= i <= s@.len(),
            r == tally(s@.subrange(0, i as int), a, by_ref),
            r <= i,
        decreases s@.len() - i,
    {
        proof {
            assert(s@.subrange(0, i as int + 1).drop_last() =~= s@.subrange(0, i as int));
        }
        if s[i].0 == a && s[i].1 == by_ref {
            r = r + 1;
        }
        i = i + 1;
    }
    proof {
        assert(s@.subrange(0, s@.len() as int) =~= s@);
    }
    r
}

fn is_mentioned(s: &Vec<(usize, bool)>, a: usize) -> (r: bool)
    ensures
        r == mentions(s@, a),
{
    let mut i: usize = 0;
    while i < s.len()
        invariant
            0 <= i <= s@.len(),
            forall|j: int| 0 <= j < i ==> (#[trigger] s@[j]).0 != a,
        decreases s@.len() - i,
    {
        if s[i].0 == a {
            return true;
        }
        i = i + 1;
    }
    false
}

/// The adjustment owed to `a`.
fn adjustment_of(args: &Vec<(usize, bool)>, ret: &Vec<(usize, bool)>, a: usize) -> (r: i64)
    requires
        args@.len() <= i64::MAX,
        ret@.len() <= i64::MAX,
    ensures
        r == adjustment(args@, ret@, a),
{
    let in_args = is_mentioned(args, a);
    let in_ret = is_mentioned(ret, a);
    if in_args && in_ret {
        let values_out = count_tagged(ret, a, false);
        let refs_in = count_tagged(args, a, true);
        proof {
            lemma_tally_bound(ret@, a, false);
            lemma_tally_bound(args@, a, true);
        }
        if values_out <= refs_in {
            values_out as i64
        } else {
            refs_in as i64
        }
    } else if in_args {
        let values_in = count_tagged(args, a, false);
        proof {
            lemma_tally_bound(args@, a, false);
        }
        -(values_in as i64)
    } else {
        let values_out = count_tagged(ret, a, false);
        proof {
            lemma_tally_bound(ret@, a, false);
        }
        values_out as i64
    }
}

fn is_listed(out: &Vec<(usize, i64)>, a: usize) -> (r: bool)
    ensures
        r == listed(out@, a),
{
    let mut i: usize = 0;
    while i < out.len()
        invariant
            0 <= i <= out@.len(),
            forall|j: int| 0 <= j < i ==> (#[trigger] out@[j]).0 != a,
        decreases out@.len() - i,
    {
        if out[i].0 == a {
            return true;
        }
        i = i + 1;
    }
    false
}

/// The adjustments are listed once per address, for exactly the addresses
/// that occur on either side, each with the amount [`adjustment`] gives.
pub open spec fn lists_adjustments(
    args: Seq<(usize, bool)>,
    ret: Seq<(usize, bool)>,
    out: Seq<(usize, i64)>,
) -> bool {
    &&& forall|k: int, l: int| 0 <= k < l < out.len() ==> (#[trigger] out[k]).0 != (#[trigger] out[l]).0
    &&& forall|k: int| 0 <= k < out.len() ==> (#[trigger] out[k]).1 == adjustment(args, ret, out[k].0)
    &&& forall|a: usize| #[trigger] listed(out, a) <==> (mentions(args, a) || mentions(ret, a))
}

/// Computes the adjustment owed to each address that occurs among the
/// arguments or in the result, one entry per address.
pub fn retain_adjustments(args: &Vec<(usize, bool)>, ret: &Vec<(usize, bool)>) -> (r: Vec<(usize, i64)>)
    requires
        args@.len() <= i64::MAX,
        ret@.len() <= i64::MAX,
    ensures
        lists_adjustments(args@, ret@, r@),
{
    let mut out: Vec<(usize, i64)> = Vec::new();
    let mut i: usize = 0;
    proof {
        assert(args@.subrange(0, 0) =~= Seq::<(usize, bool)>::empty());
    }
    while i < args.len()
        invariant
            0 <= i <= args@.len(),
            args@.len() <= i64::MAX,
            ret@.len() <= i64::MAX,
            forall|k: int, l: int| 0 <= k < l < out@.len() ==> (#[trigger] out@[k]).0 != (#[trigger] out@[l]).0,
            forall|k: int| 0 <= k < out@.len() ==> (#[trigger] out@[k]).1 == adjustment(args@, ret@, out@[k].0),
            forall|a: usize| #[trigger] listed(out@, a) <==> mentions(args@.subrange(0, i as int), a),
        decreases args@.len() - i,
    {
        let a = args[i].0;
        let ghost old_out = out@;
        if !is_listed(&out, a) {
            let d = adjustment_of(args, ret, a);
            out.push((a, d));
        }
        proof {
            let pre = args@.subrange(0, i as int);
            let pre1 = args@.subrange(0, i as int + 1);
            assert(pre1[i as int].0 == a);
            assert forall|b: usize| #[trigger] listed(out@, b) <==> mentions(pre1, b) by {
                if listed(out@, b) {
                    let k = choose|k: int| 0 <= k < out@.len() && (#[trigger] out@[k]).0 == b;
                    if k < old_out.len() {
                        assert(old_out[k] == out@[k]);
                        assert(listed(old_out, b));
                        let j = choose|j: int| 0 <= j < pre.len() && (#[trigger] pre[j]).0 == b;
                        assert(pre1[j] == pre[j]);
                    }
                }
                if mentions(pre1, b) {
                    let j = choose|j: int| 0 <= j < pre1.len() && (#[trigger] pre1[j]).0 == b;
                    if j < i {
                        assert(pre[j] == pre1[j]);
                        assert(mentions(pre, b));
                    }
                    if listed(old_out, b) {
                        let k = choose|k: int| 0 <= k < old_out.len() && (#[trigger] old_out[k]).0 == b;
                        assert(out@[k] == old_out[k]);
                    } else {
                        assert(out@[out@.len() - 1].0 == b);
                    }
                }
            }
        }
        i = i + 1;
    }
    proof {
        assert(args@.subrange(0, args@.len() as int) =~= args@);
        assert(ret@.subrange(0, 0) =~= Seq::<(usize, bool)>::empty());
    }
    let mut j: usize = 0;
    while j < ret.len()
        invariant
            0 <= j <= ret@.len(),
            args@.len() <= i64::MAX,
            ret@.len() <= i64::MAX,
            forall|k: int, l: int| 0 <= k < l < out@.len() ==> (#[trigger] out@[k]).0 != (#[trigger] out@[l]).0,
            forall|k: int| 0 <= k < out@.len() ==> (#[trigger] out@[k]).1 == adjustment(args@, ret@, out@[k].0),
            forall|a: usize| #[trigger] listed(out@, a) <==> (mentions(args@, a) || mentions(
                ret@.subrange(0, j as int),
                a,
            )),
        decreases ret@.len() - j,
    {
        let a = ret[j].0;
        let ghost old_out = out@;
        if !is_listed(&out, a) {
            let d = adjustment_of(args, ret, a);
            out.push((a, d));
        }
        proof {
            let pre = ret@.subrange(0, j as int);
            let pre1 = ret@.subrange(0, j as int + 1);
            assert(pre1[j as int].0 == a);
            assert forall|b: usize| #[trigger] listed(out@, b) <==> (mentions(args@, b) || mentions(pre1, b)) by {
                if listed(out@, b) {
                    let k = choose|k: int| 0 <= k < out@.len() && (#[trigger] out@[k]).0 == b;
                    if k < old_out.len() {
                        assert(old_out[k] == out@[k]);
                        assert(listed(old_out, b));
                        if !mentions(args@, b) {
                            let m = choose|m: int| 0 <= m < pre.len() && (#[trigger] pre[m]).0 == b;
                            assert(pre1[m] == pre[m]);
                        }
                    }
                }
                if mentions(args@, b) || mentions(pre1, b) {
                    if mentions(pre1, b) && !mentions(args@, b) {
                        let m = choose|m: int| 0 <= m < pre1.len() && (#[trigger] pre1[m]).0 == b;
                        if m < j {
                            assert(pre[m] == pre1[m]);
                            assert(mentions(pre, b));
                        }
                    }
                    if listed(old_out, b) {
                        let k = choose|k: int| 0 <= k < old_out.len() && (#[trigger] old_out[k]).0 == b;
                        assert(out@[k] == old_out[k]);
                    } else {
                        assert(out@[out@.len() - 1].0 == b);
                    }
                }
            }
        }
        j = j + 1;
    }
    proof {
        assert(ret@.subrange(0, ret@.len() as int) =~= ret@);
    }
    out
}

/// The sum of the amounts listed for `a`.
pub open spec fn delta_in(out: Seq<(usize, i64)>, a: usize) -> int
    decreases out.len(),
{
    if out.len() == 0 {
        0
    } else {
        delta_in(out.drop_last(), a) + if out.last().0 == a {
            out.last().1 as int
        } else {
            0
        }
    }
}

proof fn lemma_delta_unlisted(out: Seq<(usize, i64)>, a: usize)
    requires
        !listed(out, a),
    ensures
        delta_in(out, a) == 0,
    decreases out.len(),
{
    if out.len() > 0 {
        let d = out.drop_last();
        if listed(d, a) {
            let k = choose|k: int| 0 <= k < d.len() && (#[trigger] d[k]).0 == a;
            assert(out[k] == d[k]);
        }
        lemma_delta_unlisted(d, a);
    }
}

proof fn lemma_delta_listed(out: Seq<(usize, i64)>, k: int)
    requires
        0 <= k < out.len(),
        forall|i: int, j: int| 0 <= i < j < out.len() ==> (#[trigger] out[i]).0 != (#[trigger] out[j]).0,
    ensures
        delta_in(out, out[k].0) == out[k].1,
    decreases out.len(),
{
    let d = out.drop_last();
    if k == out.len() - 1 {
        if listed(d, out[k].0) {
            let i = choose|i: int| 0 <= i < d.len() && (#[trigger] d[i]).0 == out[k].0;
            assert(out[i] == d[i]);
        }
        lemma_delta_unlisted(d, out[k].0);
    } else {
        assert(d[k] == out[k]);
        lemma_delta_listed(d, k);
    }
}

proof fn lemma_tally_unmentioned(s: Seq<(usize, bool)>, a: usize, by_ref: bool)
    requires
        !mentions(s, a),
    ensures
        tally(s, a, by_ref) == 0,
    decreases s.len(),
{
    if s.len() > 0 {
        let d = s.drop_last();
        if mentions(d, a) {
            let i = choose|i: int| 0 <= i < d.len() && (#[trigger] d[i]).0 == a;
            assert(s[i] == d[i]);
        }
        assert(s[s.len() - 1] == s.last());
        lemma_tally_unmentioned(d, a, by_ref);
    }
}

/// The runtime can take every adjustment owed after the call: each address
/// to be retained is live with room in its count, and the native side owns
/// a credit for each release.
pub open spec fn can_adjust(rt: Runtime, args: Seq<(usize, bool)>, ret: Seq<(usize, bool)>) -> bool {
    forall|a: usize|
        #![trigger adjustment(args, ret, a)]
        (adjustment(args, ret, a) > 0 ==> rt.count(a) > 0 && rt.count(a) + adjustment(args, ret, a)
            <= usize::MAX) && (adjustment(args, ret, a) < 0 ==> rt.owned(a) >= -adjustment(
            args,
            ret,
            a,
        ))
}

/// `after` is `before` with every adjustment owed after the call applied.
pub open spec fn balanced(
    before: Runtime,
    after: Runtime,
    args: Seq<(usize, bool)>,
    ret: Seq<(usize, bool)>,
) -> bool {
    &&& after.wf()
    &&& after.pools() == before.pools()
    &&& after.counts().len() == before.counts().len()
    &&& forall|a: usize| #[trigger] after.count(a) == before.count(a) + adjustment(args, ret, a)
}

/// Balances the retain counts after a call whose argument occurrences are
/// `args` and whose result occurrences are `ret`: each address gets the
/// retains or releases that [`adjustment`] owes it.
pub fn balance_ptrs(rt: &mut Runtime, args: &Vec<(usize, bool)>, ret: &Vec<(usize, bool)>)
    requires
        old(rt).wf(),
        args@.len() <= i64::MAX,
        ret@.len() <= i64::MAX,
        can_adjust(*old(rt), args@, ret@),
    ensures
        balanced(*old(rt), *final(rt), args@, ret@),
{
    let ghost r0 = *rt;
    let adj = retain_adjustments(args, ret);
    let mut k: usize = 0;
    proof {
        assert(adj@.subrange(0, 0) =~= Seq::<(usize, i64)>::empty());
    }
    while k < adj.len()
        invariant
            0 <= k <= adj@.len(),
            r0.wf(),
            rt.wf(),
            lists_adjustments(args@, ret@, adj@),
            can_adjust(r0, args@, ret@),
            rt.pools() == r0.pools(),
            rt.counts().len() == r0.counts().len(),
            forall|a: usize| #[trigger] rt.count(a) == r0.count(a) + delta_in(adj@.subrange(0, k as int), a),
        decreases adj@.len() - k,
    {
        let (a, d) = adj[k];
        let ghost pre = adj@.subrange(0, k as int);
        proof {
            if listed(pre, a) {
                let i = choose|i: int| 0 <= i < pre.len() && (#[trigger] pre[i]).0 == a;
                assert(adj@[i] == pre[i]);
            }
            lemma_delta_unlisted(pre, a);
            assert(d == adjustment(args@, ret@, a));
            assert(rt.count(a) == r0.count(a));
            assert(rt.pending(a) == r0.pending(a));
        }
        let ghost r1 = *rt;
        if d > 0 {
            let mut t: i64 = 0;
            while t < d
                invariant
                    0 <= t <= d,
                    d == adjustment(args@, ret@, a),
                    r1.count(a) > 0,
                    r1.count(a) + d <= usize::MAX,
                    rt.wf(),
                    rt.pools() == r1.pools(),
                    rt.counts().len() == r1.counts().len(),
                    rt.count(a) == r1.count(a) + t,
                    forall|b: usize| b != a ==> #[trigger] rt.count(b) == r1.count(b),
                decreases d - t,
            {
                proof {
                    lemma_single(a);
                }
                rt.retain(a);
                t = t + 1;
            }
        } else if d < 0 {
            let mut t: i64 = 0;
            while t > d
                invariant
                    d <= t <= 0,
                    d == adjustment(args@, ret@, a),
                    r1.owned(a) >= -d,
                    rt.wf(),
                    rt.pools() == r1.pools(),
                    rt.counts().len() == r1.counts().len(),
                    rt.count(a) == r1.count(a) + t,
                    forall|b: usize| b != a ==> #[trigger] rt.count(b) == r1.count(b),
                decreases t - d,
            {
                proof {
                    lemma_single(a);
                }
                rt.release(a);
                t = t - 1;
            }
        }
        proof {
            let pre1 = adj@.subrange(0, k as int + 1);
            assert(pre1.drop_last() =~= pre);
            assert(pre1.last() == (a, d));
        }
        k = k + 1;
    }
    proof {
        assert(adj@.subrange(0, adj@.len() as int) =~= adj@);
        assert forall|a: usize| #[trigger] rt.count(a) == r0.count(a) + adjustment(args@, ret@, a) by {
            if listed(adj@, a) {
                let i = choose|i: int| 0 <= i < adj@.len() && (#[trigger] adj@[i]).0 == a;
                lemma_delta_listed(adj@, i);
            } else {
                lemma_delta_unlisted(adj@, a);
                lemma_tally_unmentioned(ret@, a, false);
            }
        }
    }
}

/// For an object that occurs both among a call's arguments and in its
/// result, balancing owes exactly the smaller of its value occurrences in the
/// result and its reference occurrences among the arguments. So when the
/// result is the very object passed by reference, as a value, the object is
/// retained once, and its count ends one higher than before the call.
pub proof fn lemma_aliased_result(
    before: Runtime,
    after: Runtime,
    args: Seq<(usize, bool)>,
    a: usize,
)
    requires
        tally(args, a, true) >= 1,
        balanced(before, after, args, seq![(a, false)]),
    ensures
        adjustment(args, seq![(a, false)], a) == vstd::math::min(
            tally(seq![(a, false)], a, false) as int,
            tally(args, a, true) as int,
        ),
        adjustment(args, seq![(a, false)], a) == 1,
        after.count(a) == before.count(a) + 1,
{
    let ret = seq![(a, false)];
    if !mentions(args, a) {
        lemma_tally_unmentioned(args, a, true);
    }
    assert(ret[0].0 == a);
    assert(ret.drop_last() =~= Seq::<(usize, bool)>::empty());
    assert(tally(Seq::<(usize, bool)>::empty(), a, false) == 0);
    assert(ret.last() == (a, false));
    assert(tally(ret, a, false) == tally(ret.drop_last(), a, false) + 1);
    assert(tally(ret, a, false) == 1);
}

/// The whole aliased round: balancing a call whose result is the very
/// object passed by reference, then giving that result up, leaves the
/// object's count where it was before the call. The argument keeps its
/// credit throughout: it is neither freed early nor leaked.
pub proof fn lemma_aliased_round_trip(
    before: Runtime,
    after: Runtime,
    dropped: Runtime,
    args: Seq<(usize, bool)>,
    a: usize,
)
    requires
        tally(args, a, true) >= 1,
        balanced(before, after, args, seq![(a, false)]),
        released(after, dropped, seq![a]),
    ensures
        after.count(a) == before.count(a) + 1,
        dropped.count(a) == before.count(a),
{
    lemma_aliased_result(before, after, args, a);
    lemma_single(a);
}

} // verus!
