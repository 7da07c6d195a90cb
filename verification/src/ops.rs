//! Bulk operations over any lender, written once, generically, purely in
//! terms of the step operation — counting, folding, short-circuiting folding,
//! skipping, nth-element lookup, searching — together with the specification
//! vocabulary their contracts are stated in.
//!
//! Skip operations report a deficit: `advance_by` answers `Err(k)` exactly
//! when the lender ran out `k` elements short of the request, and that
//! residual is data a caller can act on (the chaining adapter continues the
//! skip on its second operand). Short-circuiting folds thread a
//! `ControlFlow` value and propagate an early stop unchanged.

use core::ops::ControlFlow;

use vstd::prelude::*;

use crate::lend::{DoubleEndedLender, Lender};

verus! {

/// The head of a sequence, if any: what one step of a lender positioned at
/// `s` yields.
pub open spec fn first_of<T>(s: Seq<T>) -> Option<T> {
    if s.len() == 0 {
        None
    } else {
        Some(s[0])
    }
}

/// The last element of a sequence, if any: what one backward step of a
/// lender positioned at `s` yields.
pub open spec fn last_of<T>(s: Seq<T>) -> Option<T> {
    if s.len() == 0 {
        None
    } else {
        Some(s.last())
    }
}

/// The element `k` steps in, if any: what `nth(k)` on a lender positioned at
/// `s` yields.
pub open spec fn nth_of<T>(s: Seq<T>, k: int) -> Option<T> {
    if 0 <= k < s.len() {
        Some(s[k])
    } else {
        None
    }
}

/// `r` is an outcome of folding `f` over `s` starting from `init`: each step
/// feeds the accumulator and the next element to `f`.
pub open spec fn folds<Item, Acc, F: Fn(Acc, Item) -> Acc>(
    f: F,
    s: Seq<Item>,
    init: Acc,
    r: Acc,
) -> bool
    decreases s.len(),
{
    if s.len() == 0 {
        r == init
    } else {
        exists|mid: Acc|
            #[trigger] call_ensures(f, (init, s[0]), mid) && folds(f, s.skip(1), mid, r)
    }
}

/// `r` is an outcome of short-circuit folding `f` over `s` from `init`,
/// consuming exactly `used` elements: a `Break` from `f` is propagated at
/// once, unchanged, and nothing past the breaking element takes part; a
/// `Continue` result means the whole of `s` was folded.
pub open spec fn try_folds<Item, Acc, B, F: Fn(Acc, Item) -> ControlFlow<B, Acc>>(
    f: F,
    s: Seq<Item>,
    init: Acc,
    r: ControlFlow<B, Acc>,
    used: int,
) -> bool
    decreases s.len(),
{
    if s.len() == 0 {
        r == ControlFlow::<B, Acc>::Continue(init) && used == 0
    } else {
        exists|step: ControlFlow<B, Acc>|
            #[trigger] call_ensures(f, (init, s[0]), step) && match step {
                ControlFlow::Break(b) => r == ControlFlow::<B, Acc>::Break(b) && used == 1,
                ControlFlow::Continue(a) => try_folds(f, s.skip(1), a, r, used - 1),
            }
    }
}

/// Consume the lender and report how many elements it held.
#[verifier::loop_isolation(false)]
pub fn count<L: Lender>(l: L) -> (r: usize)
    requires
        l.remaining().len() <= usize::MAX,
    ensures
        r == l.remaining().len(),
{
    let mut cur = l;
    let mut c: usize = 0;
    loop
        invariant
            c + cur.remaining().len() == l.remaining().len(),
        decreases cur.remaining().len(),
    {
        match cur.next() {
            None => {
                return c;
            },
            Some(_) => {
                c = c + 1;
            },
        }
    }
}

/// Skip `n` elements. `Ok` when all `n` existed; otherwise the lender is
/// drained and `Err(k)` reports the deficit: exactly `k` of the requested
/// elements were missing.
#[verifier::loop_isolation(false)]
pub fn advance_by<L: Lender>(l: &mut L, n: usize) -> (r: Result<(), usize>)
    ensures
        old(l).fused() ==> final(l).fused(),
        match r {
            Ok(()) => n <= old(l).remaining().len() && final(l).remaining() == old(
                l,
            ).remaining().skip(n as int),
            Err(k) => old(l).remaining().len() < n && k == n - old(l).remaining().len() && (old(
                l,
            ).fused() ==> final(l).remaining() == Seq::<L::Item>::empty()),
        },
{
    let ghost s0 = l.remaining();
    let mut i: usize = 0;
    while i < n
        invariant
            i <= n,
            i <= s0.len(),
            l.remaining() == s0.skip(i as int),
            old(l).fused() ==> l.fused(),
        decreases n - i,
    {
        match l.next() {
            None => {
                return Err(n - i);
            },
            Some(_) => {
                proof {
                    assert(s0.skip(i as int).skip(1) =~= s0.skip(i + 1));
                }
                i = i + 1;
            },
        }
    }
    Ok(())
}

/// Skip `n` elements and yield the one after them: the `(n+1)`-th element of
/// the view, when the view is that long.
pub fn nth<L: Lender>(l: &mut L, n: usize) -> (r: Option<L::Item>)
    ensures
        old(l).fused() ==> final(l).fused(),
        r == nth_of(old(l).remaining(), n as int),
        match r {
            Some(_) => final(l).remaining() == old(l).remaining().skip(n + 1),
            None => old(l).remaining().len() <= n && (old(l).fused() ==> final(l).remaining()
                == Seq::<L::Item>::empty()),
        },
{
    let ghost s0 = l.remaining();
    match advance_by(l, n) {
        Ok(()) => {
            let r = l.next();
            proof {
                if n < s0.len() {
                    assert(s0.skip(n as int)[0] == s0[n as int]);
                    assert(s0.skip(n as int).skip(1) =~= s0.skip(n + 1));
                }
            }
            r
        },
        Err(_) => None,
    }
}

/// Consume the lender and fold `f` over every element, threading the
/// accumulator from `init`.
#[verifier::loop_isolation(false)]
pub fn fold<L: Lender, Acc, F: Fn(Acc, L::Item) -> Acc>(l: L, init: Acc, f: F) -> (r: Acc)
    requires
        forall|acc: Acc, i: int|
            0 <= i < l.remaining().len() ==> call_requires(f, (acc, l.remaining()[i])),
    ensures
        folds(f, l.remaining(), init, r),
{
    let ghost s0 = l.remaining();
    let mut cur = l;
    let mut acc = init;
    let ghost mut i: int = 0;
    loop
        invariant
            0 <= i <= s0.len(),
            cur.remaining() == s0.skip(i),
            forall|r2: Acc| folds(f, cur.remaining(), acc, r2) ==> folds(f, s0, init, r2),
        decreases cur.remaining().len(),
    {
        let ghost rem = cur.remaining();
        match cur.next() {
            None => {
                return acc;
            },
            Some(x) => {
                proof {
                    assert(s0.skip(i)[0] == s0[i]);
                }
                let acc2 = f(acc, x);
                proof {
                    assert(rem.skip(1) =~= s0.skip(i + 1));
                    assert forall|r2: Acc| folds(f, cur.remaining(), acc2, r2) implies folds(
                        f,
                        s0,
                        init,
                        r2,
                    ) by {
                        assert(call_ensures(f, (acc, rem[0]), acc2) && folds(
                            f,
                            rem.skip(1),
                            acc2,
                            r2,
                        ));
                        assert(folds(f, rem, acc, r2));
                    }
                    i = i + 1;
                }
                acc = acc2;
            },
        }
    }
}

/// Consume elements while folding `f`, stopping at once — with the stop value
/// passed through unchanged — if `f` answers `Break`; otherwise fold the whole
/// view and answer `Continue` with the final accumulator.
#[verifier::loop_isolation(false)]
pub fn try_fold<L: Lender, Acc, B, F: Fn(Acc, L::Item) -> ControlFlow<B, Acc>>(
    l: &mut L,
    init: Acc,
    f: F,
) -> (r: ControlFlow<B, Acc>)
    requires
        forall|acc: Acc, i: int|
            0 <= i < old(l).remaining().len() ==> call_requires(f, (acc, old(l).remaining()[i])),
    ensures
        old(l).fused() ==> final(l).fused(),
        exists|used: int|
            {
                &&& 0 <= used <= old(l).remaining().len()
                &&& #[trigger] try_folds(f, old(l).remaining(), init, r, used)
                &&& match r {
                    ControlFlow::Break(_) => final(l).remaining() == old(l).remaining().skip(used),
                    ControlFlow::Continue(_) => used == old(l).remaining().len() && (old(
                        l,
                    ).fused() ==> final(l).remaining() == Seq::<L::Item>::empty()),
                }
            },
{
    let ghost s0 = l.remaining();
    let mut acc = init;
    let ghost mut i: int = 0;
    loop
        invariant
            0 <= i <= s0.len(),
            l.remaining() == s0.skip(i),
            old(l).fused() ==> l.fused(),
            forall|r2: ControlFlow<B, Acc>, u: int|
                try_folds(f, l.remaining(), acc, r2, u) ==> try_folds(f, s0, init, r2, u + i),
        decreases l.remaining().len(),
    {
        let ghost rem = l.remaining();
        match l.next() {
            None => {
                proof {
                    assert(try_folds(f, rem, acc, ControlFlow::<B, Acc>::Continue(acc), 0));
                }
                return ControlFlow::Continue(acc);
            },
            Some(x) => {
                proof {
                    assert(s0.skip(i)[0] == s0[i]);
                }
                match f(acc, x) {
                    ControlFlow::Continue(a2) => {
                        proof {
                            assert(rem.skip(1) =~= s0.skip(i + 1));
                            assert forall|r2: ControlFlow<B, Acc>, u: int|
                                try_folds(f, l.remaining(), a2, r2, u) implies try_folds(
                                f,
                                s0,
                                init,
                                r2,
                                u + (i + 1),
                            ) by {
                                let step = ControlFlow::<B, Acc>::Continue(a2);
                                assert(call_ensures(f, (acc, rem[0]), step) && match step {
                                    ControlFlow::Break(b) => r2 == ControlFlow::<B, Acc>::Break(b)
                                        && u + 1 == 1,
                                    ControlFlow::Continue(a) => try_folds(
                                        f,
                                        rem.skip(1),
                                        a,
                                        r2,
                                        u,
                                    ),
                                });
                                assert(try_folds(f, rem, acc, r2, u + 1));
                            }
                            i = i + 1;
                        }
                        acc = a2;
                    },
                    ControlFlow::Break(b) => {
                        proof {
                            assert(rem.skip(1) =~= s0.skip(i + 1));
                            let step = ControlFlow::<B, Acc>::Break(b);
                            assert(call_ensures(f, (acc, rem[0]), step));
                            assert(try_folds(f, rem, acc, ControlFlow::<B, Acc>::Break(b), 1));
                            assert(try_folds(f, s0, init, ControlFlow::<B, Acc>::Break(b), i + 1));
                        }
                        return ControlFlow::Break(b);
                    },
                }
            },
        }
    }
}

/// Search forward for the first element the predicate accepts and yield it;
/// the lender is left right after the found element, so further steps resume
/// from there. Yields nothing if no element is accepted.
#[verifier::loop_isolation(false)]
pub fn find<L: Lender, P: Fn(&L::Item) -> bool>(l: &mut L, p: P) -> (r: Option<L::Item>)
    requires
        forall|i: int|
            0 <= i < old(l).remaining().len() ==> call_requires(p, (&old(l).remaining()[i],)),
    ensures
        old(l).fused() ==> final(l).fused(),
        match r {
            Some(x) => exists|i: int|
                {
                    &&& 0 <= i < old(l).remaining().len()
                    &&& x == old(l).remaining()[i]
                    &&& #[trigger] call_ensures(p, (&old(l).remaining()[i],), true)
                    &&& (forall|j: int|
                        0 <= j < i ==> call_ensures(p, (&old(l).remaining()[j],), false))
                    &&& final(l).remaining() == old(l).remaining().skip(i + 1)
                },
            None => (forall|i: int|
                0 <= i < old(l).remaining().len() ==> call_ensures(
                    p,
                    (&old(l).remaining()[i],),
                    false,
                )) && (old(l).fused() ==> final(l).remaining() == Seq::<L::Item>::empty()),
        },
{
    let ghost s0 = l.remaining();
    let ghost mut i: int = 0;
    loop
        invariant
            0 <= i <= s0.len(),
            l.remaining() == s0.skip(i),
            old(l).fused() ==> l.fused(),
            forall|j: int| 0 <= j < i ==> call_ensures(p, (&s0[j],), false),
        decreases l.remaining().len(),
    {
        match l.next() {
            None => {
                return None;
            },
            Some(x) => {
                proof {
                    assert(s0.skip(i)[0] == s0[i]);
                    assert(s0.skip(i).skip(1) =~= s0.skip(i + 1));
                }
                if p(&x) {
                    return Some(x);
                }
                proof {
                    i = i + 1;
                }
            },
        }
    }
}

/// Consume the lender and yield its final element, if it has one.
#[verifier::loop_isolation(false)]
pub fn last<L: Lender>(l: L) -> (r: Option<L::Item>)
    ensures
        r == last_of(l.remaining()),
{
    let ghost s0 = l.remaining();
    let mut cur = l;
    let mut best: Option<L::Item> = None;
    let ghost mut i: int = 0;
    loop
        invariant
            0 <= i <= s0.len(),
            cur.remaining() == s0.skip(i),
            best == if i == 0 {
                None::<L::Item>
            } else {
                Some(s0[i - 1])
            },
        decreases cur.remaining().len(),
    {
        match cur.next() {
            None => {
                return best;
            },
            Some(x) => {
                proof {
                    assert(s0.skip(i)[0] == s0[i]);
                    assert(s0.skip(i).skip(1) =~= s0.skip(i + 1));
                }
                best = Some(x);
                proof {
                    i = i + 1;
                }
            },
        }
    }
}

} // verus!

verus! {

/// Skip `n` elements from the back. `Ok` when all `n` existed; otherwise the
/// lender is drained and `Err(k)` reports the deficit.
#[verifier::loop_isolation(false)]
pub fn advance_back_by<L: DoubleEndedLender>(l: &mut L, n: usize) -> (r: Result<(), usize>)
    ensures
        old(l).fused() ==> final(l).fused(),
        match r {
            Ok(()) => n <= old(l).remaining().len() && final(l).remaining() == old(
                l,
            ).remaining().take(old(l).remaining().len() - n),
            Err(k) => old(l).remaining().len() < n && k == n - old(l).remaining().len() && (old(
                l,
            ).fused() ==> final(l).remaining() == Seq::<L::Item>::empty()),
        },
{
    let ghost s0 = l.remaining();
    let mut i: usize = 0;
    while i < n
        invariant
            i <= n,
            i <= s0.len(),
            l.remaining() == s0.take(s0.len() - i),
            old(l).fused() ==> l.fused(),
        decreases n - i,
    {
        match l.next_back() {
            None => {
                return Err(n - i);
            },
            Some(_) => {
                proof {
                    assert(s0.take(s0.len() - i).drop_last() =~= s0.take(s0.len() - (i + 1)));
                }
                i = i + 1;
            },
        }
    }
    Ok(())
}

/// Skip `n` elements from the back and yield the one before them: the
/// `(n+1)`-th element counted from the end.
pub fn nth_back<L: DoubleEndedLender>(l: &mut L, n: usize) -> (r: Option<L::Item>)
    ensures
        old(l).fused() ==> final(l).fused(),
        r == nth_of(old(l).remaining().reverse(), n as int),
        match r {
            Some(_) => final(l).remaining() == old(l).remaining().take(
                old(l).remaining().len() - n - 1,
            ),
            None => old(l).remaining().len() <= n && (old(l).fused() ==> final(l).remaining()
                == Seq::<L::Item>::empty()),
        },
{
    let ghost s0 = l.remaining();
    match advance_back_by(l, n) {
        Ok(()) => {
            let r = l.next_back();
            proof {
                let m = s0.len() - n;
                if n < s0.len() {
                    assert(s0.take(m).last() == s0[m - 1]);
                    assert(s0.reverse()[n as int] == s0[m - 1]);
                    assert(s0.take(m).drop_last() =~= s0.take(m - 1));
                }
            }
            r
        },
        Err(_) => None,
    }
}

/// Search backward for the first element, in back-to-front order, that the
/// predicate accepts; the lender is left holding exactly the elements before
/// it.
#[verifier::loop_isolation(false)]
pub fn rfind<L: DoubleEndedLender, P: Fn(&L::Item) -> bool>(l: &mut L, p: P) -> (r: Option<
    L::Item,
>)
    requires
        forall|i: int|
            0 <= i < old(l).remaining().len() ==> call_requires(p, (&old(l).remaining()[i],)),
    ensures
        old(l).fused() ==> final(l).fused(),
        match r {
            Some(x) => exists|i: int|
                {
                    &&& 0 <= i < old(l).remaining().len()
                    &&& x == old(l).remaining()[i]
                    &&& #[trigger] call_ensures(p, (&old(l).remaining()[i],), true)
                    &&& (forall|j: int|
                        i < j < old(l).remaining().len() ==> call_ensures(
                            p,
                            (&old(l).remaining()[j],),
                            false,
                        ))
                    &&& final(l).remaining() == old(l).remaining().take(i)
                },
            None => (forall|i: int|
                0 <= i < old(l).remaining().len() ==> call_ensures(
                    p,
                    (&old(l).remaining()[i],),
                    false,
                )) && (old(l).fused() ==> final(l).remaining() == Seq::<L::Item>::empty()),
        },
{
    let ghost s0 = l.remaining();
    let ghost mut i: int = 0;
    loop
        invariant
            0 <= i <= s0.len(),
            l.remaining() == s0.take(s0.len() - i),
            old(l).fused() ==> l.fused(),
            forall|j: int| s0.len() - i <= j < s0.len() ==> call_ensures(p, (&s0[j],), false),
        decreases l.remaining().len(),
    {
        match l.next_back() {
            None => {
                return None;
            },
            Some(x) => {
                proof {
                    assert(s0.take(s0.len() - i).last() == s0[s0.len() - i - 1]);
                    assert(s0.take(s0.len() - i).drop_last() =~= s0.take(s0.len() - (i + 1)));
                }
                if p(&x) {
                    return Some(x);
                }
                proof {
                    i = i + 1;
                }
            },
        }
    }
}

/// Consume the lender and fold `f` over its elements from back to front.
#[verifier::loop_isolation(false)]
pub fn rfold<L: DoubleEndedLender, Acc, F: Fn(Acc, L::Item) -> Acc>(l: L, init: Acc, f: F) -> (r:
    Acc)
    requires
        forall|acc: Acc, i: int|
            0 <= i < l.remaining().len() ==> call_requires(f, (acc, l.remaining()[i])),
    ensures
        folds(f, l.remaining().reverse(), init, r),
{
    let ghost s0 = l.remaining();
    let mut cur = l;
    let mut acc = init;
    let ghost mut i: int = 0;
    loop
        invariant
            0 <= i <= s0.len(),
            cur.remaining() == s0.take(s0.len() - i),
            forall|r2: Acc|
                folds(f, cur.remaining().reverse(), acc, r2) ==> folds(f, s0.reverse(), init, r2),
        decreases cur.remaining().len(),
    {
        let ghost rem = cur.remaining();
        match cur.next_back() {
            None => {
                return acc;
            },
            Some(x) => {
                proof {
                    assert(rem.last() == s0[s0.len() - i - 1]);
                    assert(rem.reverse()[0] == rem.last());
                }
                let acc2 = f(acc, x);
                proof {
                    assert(rem.drop_last() =~= s0.take(s0.len() - (i + 1)));
                    assert(rem.drop_last().reverse() =~= rem.reverse().skip(1));
                    assert forall|r2: Acc| folds(f, cur.remaining().reverse(), acc2, r2) implies
                        folds(f, s0.reverse(), init, r2) by {
                        assert(call_ensures(f, (acc, rem.reverse()[0]), acc2) && folds(
                            f,
                            rem.reverse().skip(1),
                            acc2,
                            r2,
                        ));
                        assert(folds(f, rem.reverse(), acc, r2));
                    }
                    i = i + 1;
                }
                acc = acc2;
            },
        }
    }
}

/// Consume elements from the back while folding `f`, stopping at once — with
/// the stop value passed through unchanged — if `f` answers `Break`.
#[verifier::loop_isolation(false)]
pub fn try_rfold<L: DoubleEndedLender, Acc, B, F: Fn(Acc, L::Item) -> ControlFlow<B, Acc>>(
    l: &mut L,
    init: Acc,
    f: F,
) -> (r: ControlFlow<B, Acc>)
    requires
        forall|acc: Acc, i: int|
            0 <= i < old(l).remaining().len() ==> call_requires(f, (acc, old(l).remaining()[i])),
    ensures
        old(l).fused() ==> final(l).fused(),
        exists|used: int|
            {
                &&& 0 <= used <= old(l).remaining().len()
                &&& #[trigger] try_folds(f, old(l).remaining().reverse(), init, r, used)
                &&& match r {
                    ControlFlow::Break(_) => final(l).remaining() == old(l).remaining().take(
                        old(l).remaining().len() - used,
                    ),
                    ControlFlow::Continue(_) => used == old(l).remaining().len() && (old(
                        l,
                    ).fused() ==> final(l).remaining() == Seq::<L::Item>::empty()),
                }
            },
{
    let ghost s0 = l.remaining();
    let mut acc = init;
    let ghost mut i: int = 0;
    loop
        invariant
            0 <= i <= s0.len(),
            l.remaining() == s0.take(s0.len() - i),
            old(l).fused() ==> l.fused(),
            forall|r2: ControlFlow<B, Acc>, u: int|
                try_folds(f, l.remaining().reverse(), acc, r2, u) ==> try_folds(
                    f,
                    s0.reverse(),
                    init,
                    r2,
                    u + i,
                ),
        decreases l.remaining().len(),
    {
        let ghost rem = l.remaining();
        match l.next_back() {
            None => {
                proof {
                    assert(rem.reverse() =~= Seq::<L::Item>::empty());
                    assert(try_folds(
                        f,
                        rem.reverse(),
                        acc,
                        ControlFlow::<B, Acc>::Continue(acc),
                        0,
                    ));
                }
                return ControlFlow::Continue(acc);
            },
            Some(x) => {
                proof {
                    assert(rem.last() == s0[s0.len() - i - 1]);
                    assert(rem.reverse()[0] == rem.last());
                }
                match f(acc, x) {
                    ControlFlow::Continue(a2) => {
                        proof {
                            assert(rem.drop_last() =~= s0.take(s0.len() - (i + 1)));
                            assert(rem.drop_last().reverse() =~= rem.reverse().skip(1));
                            assert forall|r2: ControlFlow<B, Acc>, u: int|
                                try_folds(f, l.remaining().reverse(), a2, r2, u) implies try_folds(
                                f,
                                s0.reverse(),
                                init,
                                r2,
                                u + (i + 1),
                            ) by {
                                let step = ControlFlow::<B, Acc>::Continue(a2);
                                assert(call_ensures(f, (acc, rem.reverse()[0]), step) && match step {
                                    ControlFlow::Break(b) => r2 == ControlFlow::<B, Acc>::Break(b)
                                        && u + 1 == 1,
                                    ControlFlow::Continue(a) => try_folds(
                                        f,
                                        rem.reverse().skip(1),
                                        a,
                                        r2,
                                        u,
                                    ),
                                });
                                assert(try_folds(f, rem.reverse(), acc, r2, u + 1));
                            }
                            i = i + 1;
                        }
                        acc = a2;
                    },
                    ControlFlow::Break(b) => {
                        proof {
                            assert(rem.drop_last() =~= s0.take(s0.len() - (i + 1)));
                            let step = ControlFlow::<B, Acc>::Break(b);
                            assert(call_ensures(f, (acc, rem.reverse()[0]), step));
                            assert(try_folds(
                                f,
                                rem.reverse(),
                                acc,
                                ControlFlow::<B, Acc>::Break(b),
                                1,
                            ));
                            assert(try_folds(
                                f,
                                s0.reverse(),
                                init,
                                ControlFlow::<B, Acc>::Break(b),
                                i + 1,
                            ));
                        }
                        return ControlFlow::Break(b);
                    },
                }
            },
        }
    }
}

} // verus!

verus! {

/// Folding composes over concatenation: an outcome of folding `s` from `init`,
/// continued by folding `t`, is an outcome of folding `s + t` from `init`.
pub proof fn lemma_folds_append<Item, Acc, F: Fn(Acc, Item) -> Acc>(
    f: F,
    s: Seq<Item>,
    t: Seq<Item>,
    init: Acc,
    mid: Acc,
    r: Acc,
)
    requires
        folds(f, s, init, mid),
        folds(f, t, mid, r),
    ensures
        folds(f, s + t, init, r),
    decreases s.len(),
{
    if s.len() == 0 {
        assert(s + t =~= t);
    } else {
        let m1 = choose|m: Acc| #[trigger] call_ensures(f, (init, s[0]), m) && folds(f, s.skip(1), m, mid);
        lemma_folds_append(f, s.skip(1), t, m1, mid, r);
        assert((s + t).skip(1) =~= s.skip(1) + t);
        assert((s + t)[0] == s[0]);
        assert(call_ensures(f, (init, (s + t)[0]), m1) && folds(f, (s + t).skip(1), m1, r));
    }
}

/// For a folding function whose contract pins its result — every outcome
/// `call_ensures` admits equals `g` of the arguments — the relational fold
/// outcome is the functional left fold of `g` over the elements: callers of a
/// fold with a deterministic contract may read off the exact result.
pub proof fn lemma_folds_deterministic<Item, Acc, F: Fn(Acc, Item) -> Acc>(
    f: F,
    g: spec_fn(Acc, Item) -> Acc,
    s: Seq<Item>,
    init: Acc,
    r: Acc,
)
    requires
        forall|a: Acc, x: Item, y: Acc| call_ensures(f, (a, x), y) ==> y == g(a, x),
        folds(f, s, init, r),
    ensures
        r == s.fold_left(init, g),
    decreases s.len(),
{
    if s.len() == 0 {
    } else {
        let mid = choose|m: Acc| #[trigger] call_ensures(f, (init, s[0]), m) && folds(f, s.skip(1), m, r);
        assert(mid == g(init, s[0]));
        lemma_folds_deterministic(f, g, s.skip(1), mid, r);
        s.lemma_fold_left_alt(init, g);
        s.skip(1).lemma_fold_left_alt(mid, g);
        assert(s.subrange(1, s.len() as int) =~= s.skip(1));
        assert(s.fold_left_alt(init, g) == s.skip(1).fold_left_alt(mid, g));
    }
}

/// Short-circuit folding composes over concatenation: completing `s` (no early
/// stop) and then folding `t` is an outcome of folding `s + t`, with the
/// element counts added.
pub proof fn lemma_try_folds_append<Item, Acc, B, F: Fn(Acc, Item) -> ControlFlow<B, Acc>>(
    f: F,
    s: Seq<Item>,
    t: Seq<Item>,
    init: Acc,
    mid: Acc,
    r: ControlFlow<B, Acc>,
    u: int,
)
    requires
        try_folds(f, s, init, ControlFlow::<B, Acc>::Continue(mid), s.len() as int),
        try_folds(f, t, mid, r, u),
    ensures
        try_folds(f, s + t, init, r, s.len() + u),
    decreases s.len(),
{
    if s.len() == 0 {
        assert(s + t =~= t);
    } else {
        let step = choose|step: ControlFlow<B, Acc>|
            #[trigger] call_ensures(f, (init, s[0]), step) && match step {
                ControlFlow::Break(b) => ControlFlow::<B, Acc>::Continue(mid)
                    == ControlFlow::<B, Acc>::Break(b) && s.len() as int == 1,
                ControlFlow::Continue(a) => try_folds(
                    f,
                    s.skip(1),
                    a,
                    ControlFlow::<B, Acc>::Continue(mid),
                    s.len() - 1,
                ),
            };
        match step {
            ControlFlow::Break(_) => {
                assert(false);
            },
            ControlFlow::Continue(a1) => {
                lemma_try_folds_append(f, s.skip(1), t, a1, mid, r, u);
                assert((s + t).skip(1) =~= s.skip(1) + t);
                assert((s + t)[0] == s[0]);
                assert(call_ensures(f, (init, (s + t)[0]), step) && match step {
                    ControlFlow::Break(b) => r == ControlFlow::<B, Acc>::Break(b) && s.len() + u
                        == 1,
                    ControlFlow::Continue(a) => try_folds(
                        f,
                        (s + t).skip(1),
                        a,
                        r,
                        s.len() + u - 1,
                    ),
                });
            },
        }
    }
}

/// An early stop inside `s` is an early stop of `s + t`, at the same element,
/// with the same stop value and the same count of consumed elements: when the
/// first operand of a concatenation signals termination, the second operand's
/// elements play no part in the outcome.
pub proof fn lemma_try_folds_break_append<Item, Acc, B, F: Fn(Acc, Item) -> ControlFlow<B, Acc>>(
    f: F,
    s: Seq<Item>,
    t: Seq<Item>,
    init: Acc,
    b: B,
    u: int,
)
    requires
        try_folds(f, s, init, ControlFlow::<B, Acc>::Break(b), u),
    ensures
        try_folds(f, s + t, init, ControlFlow::<B, Acc>::Break(b), u),
    decreases s.len(),
{
    let r = ControlFlow::<B, Acc>::Break(b);
    let step = choose|step: ControlFlow<B, Acc>|
        #[trigger] call_ensures(f, (init, s[0]), step) && match step {
            ControlFlow::Break(b2) => r == ControlFlow::<B, Acc>::Break(b2) && u == 1,
            ControlFlow::Continue(a) => try_folds(f, s.skip(1), a, r, u - 1),
        };
    assert((s + t).skip(1) =~= s.skip(1) + t);
    assert((s + t)[0] == s[0]);
    match step {
        ControlFlow::Break(_) => {
            assert(call_ensures(f, (init, (s + t)[0]), step) && match step {
                ControlFlow::Break(b2) => r == ControlFlow::<B, Acc>::Break(b2) && u == 1,
                ControlFlow::Continue(a) => try_folds(f, (s + t).skip(1), a, r, u - 1),
            });
        },
        ControlFlow::Continue(a1) => {
            lemma_try_folds_break_append(f, s.skip(1), t, a1, b, u - 1);
            assert(call_ensures(f, (init, (s + t)[0]), step) && match step {
                ControlFlow::Break(b2) => r == ControlFlow::<B, Acc>::Break(b2) && u == 1,
                ControlFlow::Continue(a) => try_folds(f, (s + t).skip(1), a, r, u - 1),
            });
        },
    }
}

} // verus!
