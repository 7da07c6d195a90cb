//! The two-source sequential-chaining adapter: two owned lenders of the same
//! item type presented as one, all of `a` then all of `b`.
//!
//! Both operands are wrapped in the fusing decorator at construction, so once
//! `a` reports exhaustion the chain never re-inspects it — a revival of `a`
//! after its exhaustion can never be observed through the chain.

use core::ops::ControlFlow;

use vstd::prelude::*;

use crate::fuse::Fuse;
use crate::lend::{DoubleEndedLender, FusedLender, Lender};
use crate::ops;
use crate::ops::{folds, last_of, nth_of, try_folds};

verus! {

/// Two lenders chained in sequence: the view of the whole is the view of `a`
/// followed by the view of `b`, forward steps drain `a` before touching `b`,
/// and backward steps drain `b` before touching `a`.
#[derive(Clone, Debug)]
#[must_use]
pub struct Chain<A, B> {
    a: Fuse<A>,
    b: Fuse<B>,
}

impl<A, B> Chain<A, B> where A: Lender, B: Lender<Item = <A as Lender>::Item> {
    /// Chain `a` and `b`, wrapping each in the fusing decorator: the chain
    /// holds exactly the elements `a` holds now followed by those `b` holds
    /// now, whatever either would do after its own exhaustion.
    pub fn new(a: A, b: B) -> (r: Self)
        ensures
            r.remaining() == a.remaining() + b.remaining(),
            r.fused(),
            r.lower_hint() == if a.lower_hint() + b.lower_hint() <= usize::MAX {
                (a.lower_hint() + b.lower_hint()) as usize
            } else {
                usize::MAX
            },
            r.upper_hint() == match (a.upper_hint(), b.upper_hint()) {
                (Some(x), Some(y)) => if x + y <= usize::MAX {
                    Some((x + y) as usize)
                } else {
                    None::<usize>
                },
                _ => None::<usize>,
            },
    {
        Chain { a: Fuse::new(a), b: Fuse::new(b) }
    }

    /// Consume the chain and report how many elements it held: the sum of the
    /// element counts of its two sides.
    pub fn count(self) -> (r: usize)
        requires
            self.remaining().len() <= usize::MAX,
        ensures
            r == self.remaining().len(),
    {
        let Chain { a, b } = self;
        let ca = ops::count(a);
        let cb = ops::count(b);
        ca + cb
    }

    /// Fold `f` over the whole chain: all of `a`, then all of `b`, threading
    /// the accumulator.
    pub fn fold<Acc, F: Fn(Acc, A::Item) -> Acc + Copy>(self, init: Acc, f: F) -> (r: Acc)
        requires
            forall|acc: Acc, i: int|
                0 <= i < self.remaining().len() ==> call_requires(f, (acc, self.remaining()[i])),
        ensures
            folds(f, self.remaining(), init, r),
    {
        let ghost sa = self.a.remaining();
        let ghost sb = self.b.remaining();
        proof {
            assert forall|acc: Acc, i: int| 0 <= i < sa.len() implies call_requires(
                f,
                (acc, sa[i]),
            ) by {
                assert(call_requires(f, (acc, self.remaining()[i])));
                assert(self.remaining()[i] == sa[i]);
            }
            assert forall|acc: Acc, i: int| 0 <= i < sb.len() implies call_requires(
                f,
                (acc, sb[i]),
            ) by {
                assert(call_requires(f, (acc, self.remaining()[sa.len() + i])));
                assert(self.remaining()[sa.len() + i] == sb[i]);
            }
        }
        let Chain { a, b } = self;
        let mid = ops::fold(a, init, f);
        let r = ops::fold(b, mid, f);
        proof {
            ops::lemma_folds_append(f, sa, sb, init, mid, r);
        }
        r
    }

    /// Short-circuit fold over the chain: fold `a` first, and if `a` signals
    /// an early stop, propagate it at once — `b` is never touched; otherwise
    /// thread the accumulator into `b`'s fold.
    pub fn try_fold<Acc, B2, F: Fn(Acc, A::Item) -> ControlFlow<B2, Acc> + Copy>(
        &mut self,
        init: Acc,
        f: F,
    ) -> (r: ControlFlow<B2, Acc>)
        requires
            forall|acc: Acc, i: int|
                0 <= i < old(self).remaining().len() ==> call_requires(
                    f,
                    (acc, old(self).remaining()[i]),
                ),
        ensures
            final(self).fused(),
            exists|used: int|
                {
                    &&& 0 <= used <= old(self).remaining().len()
                    &&& #[trigger] try_folds(f, old(self).remaining(), init, r, used)
                    &&& match r {
                        ControlFlow::Break(_) => final(self).remaining()
                            == old(self).remaining().skip(used),
                        ControlFlow::Continue(_) => used == old(self).remaining().len()
                            && final(self).remaining() == Seq::<A::Item>::empty(),
                    }
                },
    {
        let ghost sa = self.a.remaining();
        let ghost sb = self.b.remaining();
        proof {
            self.a.always_fused();
            self.b.always_fused();
            assert forall|acc: Acc, i: int| 0 <= i < sa.len() implies call_requires(
                f,
                (acc, sa[i]),
            ) by {
                assert(call_requires(f, (acc, old(self).remaining()[i])));
                assert(old(self).remaining()[i] == sa[i]);
            }
            assert forall|acc: Acc, i: int| 0 <= i < sb.len() implies call_requires(
                f,
                (acc, sb[i]),
            ) by {
                assert(call_requires(f, (acc, old(self).remaining()[sa.len() + i])));
                assert(old(self).remaining()[sa.len() + i] == sb[i]);
            }
        }
        match ops::try_fold(&mut self.a, init, f) {
            ControlFlow::Break(x) => {
                proof {
                    let ua = choose|u: int|
                        {
                            &&& 0 <= u <= sa.len()
                            &&& #[trigger] try_folds(
                                f,
                                sa,
                                init,
                                ControlFlow::<B2, Acc>::Break(x),
                                u,
                            )
                            &&& self.a.remaining() == sa.skip(u)
                        };
                    ops::lemma_try_folds_break_append(f, sa, sb, init, x, ua);
                    assert(sa.skip(ua) + sb =~= (sa + sb).skip(ua));
                    assert(old(self).remaining() == sa + sb);
                    assert(try_folds(
                        f,
                        old(self).remaining(),
                        init,
                        ControlFlow::<B2, Acc>::Break(x),
                        ua,
                    ));
                    assert(self.remaining() == old(self).remaining().skip(ua));
                }
                ControlFlow::Break(x)
            },
            ControlFlow::Continue(mid) => {
                let r = ops::try_fold(&mut self.b, mid, f);
                proof {
                    match r {
                        ControlFlow::Break(_) => {
                            let ub = choose|u: int|
                                {
                                    &&& 0 <= u <= sb.len()
                                    &&& #[trigger] try_folds(f, sb, mid, r, u)
                                    &&& self.b.remaining() == sb.skip(u)
                                };
                            ops::lemma_try_folds_append(f, sa, sb, init, mid, r, ub);
                            assert(self.remaining() =~= (sa + sb).skip(sa.len() + ub));
                            assert(old(self).remaining() == sa + sb);
                            assert(try_folds(f, old(self).remaining(), init, r, sa.len() + ub));
                            assert(self.remaining() == old(self).remaining().skip(
                                sa.len() + ub,
                            ));
                        },
                        ControlFlow::Continue(_) => {
                            ops::lemma_try_folds_append(f, sa, sb, init, mid, r, sb.len() as int);
                            assert(self.remaining() =~= Seq::<A::Item>::empty());
                            assert(old(self).remaining() == sa + sb);
                            assert(try_folds(
                                f,
                                old(self).remaining(),
                                init,
                                r,
                                old(self).remaining().len() as int,
                            ));
                        },
                    }
                }
                r
            },
        }
    }

    /// Skip `n` elements: as many as possible from `a`, and on a deficit the
    /// rest from `b`. `Ok` exactly when the chain held at least `n` elements;
    /// otherwise `Err(k)` reports how many were missing.
    pub fn advance_by(&mut self, n: usize) -> (r: Result<(), usize>)
        ensures
            final(self).fused(),
            match r {
                Ok(()) => n <= old(self).remaining().len() && final(self).remaining() == old(
                    self,
                ).remaining().skip(n as int),
                Err(k) => old(self).remaining().len() < n && k == n - old(self).remaining().len()
                    && final(self).remaining() == Seq::<A::Item>::empty(),
            },
    {
        let ghost sa = self.a.remaining();
        let ghost sb = self.b.remaining();
        proof {
            self.a.always_fused();
            self.b.always_fused();
        }
        match ops::advance_by(&mut self.a, n) {
            Ok(()) => {
                proof {
                    assert(sa.skip(n as int) + sb =~= (sa + sb).skip(n as int));
                }
                Ok(())
            },
            Err(k) => {
                let r = ops::advance_by(&mut self.b, k);
                proof {
                    match r {
                        Ok(()) => {
                            assert(Seq::<A::Item>::empty() + sb.skip(k as int) =~= (
                            sa + sb).skip(n as int));
                        },
                        Err(_) => {
                            assert(self.remaining() =~= Seq::<A::Item>::empty());
                        },
                    }
                }
                r
            },
        }
    }

    /// Skip `n` elements and yield the one after them — the `(n+1)`-th element
    /// of the chain — continuing into `b` by exactly the deficit when `a` runs
    /// out.
    pub fn nth(&mut self, n: usize) -> (r: Option<A::Item>)
        ensures
            final(self).fused(),
            r == nth_of(old(self).remaining(), n as int),
            match r {
                Some(_) => final(self).remaining() == old(self).remaining().skip(n + 1),
                None => old(self).remaining().len() <= n && final(self).remaining() == Seq::<
                    A::Item,
                >::empty(),
            },
    {
        let ghost sa = self.a.remaining();
        let ghost sb = self.b.remaining();
        proof {
            self.a.always_fused();
            self.b.always_fused();
        }
        match ops::advance_by(&mut self.a, n) {
            Ok(()) => {
                match self.a.next() {
                    Some(x) => {
                        proof {
                            assert(sa.skip(n as int)[0] == sa[n as int]);
                            assert((sa + sb)[n as int] == sa[n as int]);
                            assert(sa.skip(n as int).skip(1) + sb =~= (sa + sb).skip(n + 1));
                        }
                        Some(x)
                    },
                    None => {
                        let r = ops::nth(&mut self.b, 0);
                        proof {
                            match r {
                                Some(_) => {
                                    assert((sa + sb)[n as int] == sb[0]);
                                    assert(Seq::<A::Item>::empty() + sb.skip(1) =~= (
                                    sa + sb).skip(n + 1));
                                },
                                None => {
                                    assert(self.remaining() =~= Seq::<A::Item>::empty());
                                },
                            }
                        }
                        r
                    },
                }
            },
            Err(k) => {
                let r = ops::nth(&mut self.b, k);
                proof {
                    match r {
                        Some(_) => {
                            assert((sa + sb)[n as int] == sb[k as int]);
                            assert(Seq::<A::Item>::empty() + sb.skip(k + 1) =~= (
                            sa + sb).skip(n + 1));
                        },
                        None => {
                            assert(self.remaining() =~= Seq::<A::Item>::empty());
                        },
                    }
                }
                r
            },
        }
    }

    /// Search the chain forward for the first element the predicate accepts:
    /// `a` is searched first, and only if it is exhausted without a match is
    /// `b` searched, continuing from where `a` left off. The chain is left
    /// positioned right after the found element.
    pub fn find<P: Fn(&A::Item) -> bool + Copy>(&mut self, p: P) -> (r: Option<A::Item>)
        requires
            forall|i: int|
                0 <= i < old(self).remaining().len() ==> call_requires(
                    p,
                    (&old(self).remaining()[i],),
                ),
        ensures
            final(self).fused(),
            match r {
                Some(x) => exists|i: int|
                    {
                        &&& 0 <= i < old(self).remaining().len()
                        &&& x == old(self).remaining()[i]
                        &&& #[trigger] call_ensures(p, (&old(self).remaining()[i],), true)
                        &&& (forall|j: int|
                            0 <= j < i ==> call_ensures(p, (&old(self).remaining()[j],), false))
                        &&& final(self).remaining() == old(self).remaining().skip(i + 1)
                    },
                None => (forall|i: int|
                    0 <= i < old(self).remaining().len() ==> call_ensures(
                        p,
                        (&old(self).remaining()[i],),
                        false,
                    )) && final(self).remaining() == Seq::<A::Item>::empty(),
            },
    {
        let ghost sa = self.a.remaining();
        let ghost sb = self.b.remaining();
        proof {
            self.a.always_fused();
            self.b.always_fused();
            assert forall|i: int| 0 <= i < sa.len() implies call_requires(p, (&sa[i],)) by {
                assert(call_requires(p, (&old(self).remaining()[i],)));
                assert(old(self).remaining()[i] == sa[i]);
            }
            assert forall|i: int| 0 <= i < sb.len() implies call_requires(p, (&sb[i],)) by {
                assert(call_requires(p, (&old(self).remaining()[sa.len() + i],)));
                assert(old(self).remaining()[sa.len() + i] == sb[i]);
            }
        }
        match ops::find(&mut self.a, p) {
            Some(x) => {
                proof {
                    let i = choose|i: int|
                        {
                            &&& 0 <= i < sa.len()
                            &&& x == sa[i]
                            &&& #[trigger] call_ensures(p, (&sa[i],), true)
                            &&& (forall|j: int| 0 <= j < i ==> call_ensures(p, (&sa[j],), false))
                            &&& self.a.remaining() == sa.skip(i + 1)
                        };
                    assert((sa + sb)[i] == sa[i]);
                    assert forall|j: int| 0 <= j < i implies call_ensures(
                        p,
                        (&(sa + sb)[j],),
                        false,
                    ) by {
                        assert((sa + sb)[j] == sa[j]);
                    }
                    assert(sa.skip(i + 1) + sb =~= (sa + sb).skip(i + 1));
                    assert(old(self).remaining() == sa + sb);
                    assert({
                        &&& 0 <= i < old(self).remaining().len()
                        &&& x == old(self).remaining()[i]
                        &&& call_ensures(p, (&old(self).remaining()[i],), true)
                        &&& (forall|j: int|
                            0 <= j < i ==> call_ensures(p, (&old(self).remaining()[j],), false))
                        &&& self.remaining() == old(self).remaining().skip(i + 1)
                    });
                }
                Some(x)
            },
            None => {
                let r = ops::find(&mut self.b, p);
                proof {
                    let ghost ropt = r;
                    match ropt {
                        Some(y) => {
                            let ib = choose|i: int|
                                {
                                    &&& 0 <= i < sb.len()
                                    &&& y == sb[i]
                                    &&& #[trigger] call_ensures(p, (&sb[i],), true)
                                    &&& (forall|j: int|
                                        0 <= j < i ==> call_ensures(p, (&sb[j],), false))
                                    &&& self.b.remaining() == sb.skip(i + 1)
                                };
                            let i = sa.len() + ib;
                            assert((sa + sb)[i] == sb[ib]);
                            assert forall|j: int| 0 <= j < i implies call_ensures(
                                p,
                                (&(sa + sb)[j],),
                                false,
                            ) by {
                                if j < sa.len() {
                                    assert((sa + sb)[j] == sa[j]);
                                } else {
                                    assert((sa + sb)[j] == sb[j - sa.len()]);
                                }
                            }
                            assert(Seq::<A::Item>::empty() + sb.skip(ib + 1) =~= (sa + sb).skip(
                                i + 1,
                            ));
                            assert(old(self).remaining() == sa + sb);
                            assert({
                                &&& 0 <= i < old(self).remaining().len()
                                &&& y == old(self).remaining()[i]
                                &&& call_ensures(p, (&old(self).remaining()[i],), true)
                                &&& (forall|j: int|
                                    0 <= j < i ==> call_ensures(
                                        p,
                                        (&old(self).remaining()[j],),
                                        false,
                                    ))
                                &&& self.remaining() == old(self).remaining().skip(i + 1)
                            });
                        },
                        None => {
                            assert forall|i: int| 0 <= i < (sa + sb).len() implies call_ensures(
                                p,
                                (&(sa + sb)[i],),
                                false,
                            ) by {
                                if i < sa.len() {
                                    assert((sa + sb)[i] == sa[i]);
                                } else {
                                    assert((sa + sb)[i] == sb[i - sa.len()]);
                                }
                            }
                            assert(self.remaining() =~= Seq::<A::Item>::empty());
                        },
                    }
                }
                r
            },
        }
    }

    /// Consume the whole chain and yield its final element: `b`'s last element
    /// when `b` has any, else `a`'s last. Both sides are fully drained in the
    /// process, as a completed `last` leaves the sequence exhausted.
    pub fn last(self) -> (r: Option<A::Item>)
        ensures
            r == last_of(self.remaining()),
    {
        let ghost sa = self.a.remaining();
        let ghost sb = self.b.remaining();
        let Chain { a, b } = self;
        let a_last = ops::last(a);
        let b_last = ops::last(b);
        proof {
            if sb.len() > 0 {
                assert((sa + sb).last() == sb.last());
            } else if sa.len() > 0 {
                assert((sa + sb).last() == sa.last());
            }
        }
        match b_last {
            Some(y) => Some(y),
            None => a_last,
        }
    }
}

impl<A, B> Lender for Chain<A, B> where A: Lender, B: Lender<Item = <A as Lender>::Item> {
    type Item = A::Item;

    closed spec fn remaining(&self) -> Seq<A::Item> {
        self.a.remaining() + self.b.remaining()
    }

    closed spec fn fused(&self) -> bool {
        true
    }

    closed spec fn lower_hint(&self) -> usize {
        if self.a.lower_hint() + self.b.lower_hint() <= usize::MAX {
            (self.a.lower_hint() + self.b.lower_hint()) as usize
        } else {
            usize::MAX
        }
    }

    closed spec fn upper_hint(&self) -> Option<usize> {
        match (self.a.upper_hint(), self.b.upper_hint()) {
            (Some(x), Some(y)) => if x + y <= usize::MAX {
                Some((x + y) as usize)
            } else {
                None
            },
            _ => None,
        }
    }

    proof fn hint_law(&self) {
        self.a.hint_law();
        self.b.hint_law();
    }

    /// Step `a`; only once `a` is exhausted, step `b`.
    fn next(&mut self) -> (r: Option<A::Item>) {
        let ghost sa = self.a.remaining();
        let ghost sb = self.b.remaining();
        proof {
            self.a.always_fused();
            self.b.always_fused();
        }
        match self.a.next() {
            Some(x) => {
                proof {
                    assert((sa + sb)[0] == sa[0]);
                    assert(sa.skip(1) + sb =~= (sa + sb).skip(1));
                }
                Some(x)
            },
            None => {
                let r = self.b.next();
                proof {
                    match r {
                        Some(_) => {
                            assert((sa + sb)[0] == sb[0]);
                            assert(Seq::<A::Item>::empty() + sb.skip(1) =~= (sa + sb).skip(1));
                        },
                        None => {
                            assert(self.remaining() =~= Seq::<A::Item>::empty());
                        },
                    }
                }
                r
            },
        }
    }

    /// The lower bound is the saturating sum of the two sides' lower bounds;
    /// the upper bound is their sum exactly when both sides report one and the
    /// sum fits, else unknown.
    fn size_hint(&self) -> (r: (usize, Option<usize>)) {
        let (a_lower, a_upper) = self.a.size_hint();
        let (b_lower, b_upper) = self.b.size_hint();
        let lower = if a_lower <= usize::MAX - b_lower {
            a_lower + b_lower
        } else {
            usize::MAX
        };
        let upper = match (a_upper, b_upper) {
            (Some(x), Some(y)) => if x <= usize::MAX - y {
                Some(x + y)
            } else {
                None
            },
            _ => None,
        };
        (lower, upper)
    }
}

impl<A, B> FusedLender for Chain<A, B> where
    A: FusedLender,
    B: FusedLender<Item = <A as Lender>::Item>,
 {
    proof fn always_fused(&self) {
    }
}

} // verus!

verus! {

impl<A, B> Chain<A, B> where
    A: DoubleEndedLender,
    B: DoubleEndedLender<Item = <A as Lender>::Item>,
 {
    /// Skip `n` elements from the back: as many as possible from `b`, and on
    /// a deficit the rest from `a`. `Ok` exactly when the chain held at least
    /// `n` elements; otherwise `Err(k)` reports how many were missing.
    pub fn advance_back_by(&mut self, n: usize) -> (r: Result<(), usize>)
        ensures
            final(self).fused(),
            match r {
                Ok(()) => n <= old(self).remaining().len() && final(self).remaining() == old(
                    self,
                ).remaining().take(old(self).remaining().len() - n),
                Err(k) => old(self).remaining().len() < n && k == n - old(self).remaining().len()
                    && final(self).remaining() == Seq::<A::Item>::empty(),
            },
    {
        let ghost sa = self.a.remaining();
        let ghost sb = self.b.remaining();
        proof {
            self.a.always_fused();
            self.b.always_fused();
        }
        match ops::advance_back_by(&mut self.b, n) {
            Ok(()) => {
                proof {
                    assert(sa + sb.take(sb.len() - n) =~= (sa + sb).take(
                        (sa + sb).len() - n,
                    ));
                }
                Ok(())
            },
            Err(k) => {
                let r = ops::advance_back_by(&mut self.a, k);
                proof {
                    match r {
                        Ok(()) => {
                            assert(sa.take(sa.len() - k) + Seq::<A::Item>::empty() =~= (
                            sa + sb).take((sa + sb).len() - n));
                        },
                        Err(_) => {
                            assert(self.remaining() =~= Seq::<A::Item>::empty());
                        },
                    }
                }
                r
            },
        }
    }

    /// Skip `n` elements from the back and yield the one before them — the
    /// `(n+1)`-th element of the chain counted from the end — continuing into
    /// `a` by exactly the deficit when `b` runs out.
    pub fn nth_back(&mut self, n: usize) -> (r: Option<A::Item>)
        ensures
            final(self).fused(),
            r == nth_of(old(self).remaining().reverse(), n as int),
            match r {
                Some(_) => final(self).remaining() == old(self).remaining().take(
                    old(self).remaining().len() - n - 1,
                ),
                None => old(self).remaining().len() <= n && final(self).remaining() == Seq::<
                    A::Item,
                >::empty(),
            },
    {
        let ghost sa = self.a.remaining();
        let ghost sb = self.b.remaining();
        let ghost s0 = sa + sb;
        proof {
            self.a.always_fused();
            self.b.always_fused();
        }
        match ops::advance_back_by(&mut self.b, n) {
            Ok(()) => {
                match self.b.next_back() {
                    Some(x) => {
                        proof {
                            assert(sb.take(sb.len() - n).last() == sb[sb.len() - n - 1]);
                            assert(s0.reverse()[n as int] == s0[s0.len() - 1 - n]);
                            assert(s0[s0.len() - 1 - n] == sb[sb.len() - 1 - n]);
                            assert(sa + sb.take(sb.len() - n).drop_last() =~= s0.take(
                                s0.len() - n - 1,
                            ));
                        }
                        Some(x)
                    },
                    None => {
                        let r = ops::nth_back(&mut self.a, 0);
                        proof {
                            match r {
                                Some(_) => {
                                    assert(sa.reverse()[0] == sa[sa.len() - 1]);
                                    assert(s0.reverse()[n as int] == s0[s0.len() - 1 - n]);
                                    assert(s0[sa.len() - 1] == sa[sa.len() - 1]);
                                    assert(sa.take(sa.len() - 1) + Seq::<A::Item>::empty() =~= s0
                                        .take(s0.len() - n - 1));
                                },
                                None => {
                                    assert(self.remaining() =~= Seq::<A::Item>::empty());
                                },
                            }
                        }
                        r
                    },
                }
            },
            Err(k) => {
                let r = ops::nth_back(&mut self.a, k);
                proof {
                    match r {
                        Some(_) => {
                            assert(sa.reverse()[k as int] == sa[sa.len() - 1 - k]);
                            assert(s0.reverse()[n as int] == s0[s0.len() - 1 - n]);
                            assert(s0[s0.len() - 1 - n] == sa[sa.len() - 1 - k]);
                            assert(sa.take(sa.len() - k - 1) + Seq::<A::Item>::empty() =~= s0.take(
                                s0.len() - n - 1,
                            ));
                        },
                        None => {
                            assert(self.remaining() =~= Seq::<A::Item>::empty());
                        },
                    }
                }
                r
            },
        }
    }

    /// Search the chain backward for the first element, in back-to-front
    /// order, that the predicate accepts: `b` is searched first, and only if
    /// it is exhausted without a match is `a` searched. The chain is left
    /// holding exactly the elements before the found one.
    pub fn rfind<P: Fn(&A::Item) -> bool + Copy>(&mut self, p: P) -> (r: Option<A::Item>)
        requires
            forall|i: int|
                0 <= i < old(self).remaining().len() ==> call_requires(
                    p,
                    (&old(self).remaining()[i],),
                ),
        ensures
            final(self).fused(),
            match r {
                Some(x) => exists|i: int|
                    {
                        &&& 0 <= i < old(self).remaining().len()
                        &&& x == old(self).remaining()[i]
                        &&& #[trigger] call_ensures(p, (&old(self).remaining()[i],), true)
                        &&& (forall|j: int|
                            i < j < old(self).remaining().len() ==> call_ensures(
                                p,
                                (&old(self).remaining()[j],),
                                false,
                            ))
                        &&& final(self).remaining() == old(self).remaining().take(i)
                    },
                None => (forall|i: int|
                    0 <= i < old(self).remaining().len() ==> call_ensures(
                        p,
                        (&old(self).remaining()[i],),
                        false,
                    )) && final(self).remaining() == Seq::<A::Item>::empty(),
            },
    {
        let ghost sa = self.a.remaining();
        let ghost sb = self.b.remaining();
        proof {
            self.a.always_fused();
            self.b.always_fused();
            assert forall|i: int| 0 <= i < sa.len() implies call_requires(p, (&sa[i],)) by {
                assert(call_requires(p, (&old(self).remaining()[i],)));
                assert(old(self).remaining()[i] == sa[i]);
            }
            assert forall|i: int| 0 <= i < sb.len() implies call_requires(p, (&sb[i],)) by {
                assert(call_requires(p, (&old(self).remaining()[sa.len() + i],)));
                assert(old(self).remaining()[sa.len() + i] == sb[i]);
            }
        }
        match ops::rfind(&mut self.b, p) {
            Some(x) => {
                proof {
                    let ib = choose|i: int|
                        {
                            &&& 0 <= i < sb.len()
                            &&& x == sb[i]
                            &&& #[trigger] call_ensures(p, (&sb[i],), true)
                            &&& (forall|j: int|
                                i < j < sb.len() ==> call_ensures(p, (&sb[j],), false))
                            &&& self.b.remaining() == sb.take(i)
                        };
                    let i = sa.len() + ib;
                    assert(old(self).remaining() == sa + sb);
                    assert((sa + sb)[i] == sb[ib]);
                    assert forall|j: int| i < j < (sa + sb).len() implies call_ensures(
                        p,
                        (&old(self).remaining()[j],),
                        false,
                    ) by {
                        assert((sa + sb)[j] == sb[j - sa.len()]);
                    }
                    assert(sa + sb.take(ib) =~= (sa + sb).take(i));
                    assert({
                        &&& 0 <= i < old(self).remaining().len()
                        &&& x == old(self).remaining()[i]
                        &&& call_ensures(p, (&old(self).remaining()[i],), true)
                        &&& (forall|j: int|
                            i < j < old(self).remaining().len() ==> call_ensures(
                                p,
                                (&old(self).remaining()[j],),
                                false,
                            ))
                        &&& self.remaining() == old(self).remaining().take(i)
                    });
                }
                Some(x)
            },
            None => {
                let r = ops::rfind(&mut self.a, p);
                proof {
                    let ghost ropt = r;
                    assert(old(self).remaining() == sa + sb);
                    match ropt {
                        Some(y) => {
                            let i = choose|i: int|
                                {
                                    &&& 0 <= i < sa.len()
                                    &&& y == sa[i]
                                    &&& #[trigger] call_ensures(p, (&sa[i],), true)
                                    &&& (forall|j: int|
                                        i < j < sa.len() ==> call_ensures(p, (&sa[j],), false))
                                    &&& self.a.remaining() == sa.take(i)
                                };
                            assert((sa + sb)[i] == sa[i]);
                            assert forall|j: int| i < j < (sa + sb).len() implies call_ensures(
                                p,
                                (&old(self).remaining()[j],),
                                false,
                            ) by {
                                if j < sa.len() {
                                    assert((sa + sb)[j] == sa[j]);
                                } else {
                                    assert((sa + sb)[j] == sb[j - sa.len()]);
                                }
                            }
                            assert(sa.take(i) + Seq::<A::Item>::empty() =~= (sa + sb).take(i));
                            assert({
                                &&& 0 <= i < old(self).remaining().len()
                                &&& y == old(self).remaining()[i]
                                &&& call_ensures(p, (&old(self).remaining()[i],), true)
                                &&& (forall|j: int|
                                    i < j < old(self).remaining().len() ==> call_ensures(
                                        p,
                                        (&old(self).remaining()[j],),
                                        false,
                                    ))
                                &&& self.remaining() == old(self).remaining().take(i)
                            });
                        },
                        None => {
                            assert forall|i: int| 0 <= i < (sa + sb).len() implies call_ensures(
                                p,
                                (&old(self).remaining()[i],),
                                false,
                            ) by {
                                if i < sa.len() {
                                    assert((sa + sb)[i] == sa[i]);
                                } else {
                                    assert((sa + sb)[i] == sb[i - sa.len()]);
                                }
                            }
                            assert(self.remaining() =~= Seq::<A::Item>::empty());
                        },
                    }
                }
                r
            },
        }
    }

    /// Fold `f` over the whole chain from the back: all of `b` in reverse,
    /// then all of `a` in reverse, threading the accumulator.
    pub fn rfold<Acc, F: Fn(Acc, A::Item) -> Acc + Copy>(self, init: Acc, f: F) -> (r: Acc)
        requires
            forall|acc: Acc, i: int|
                0 <= i < self.remaining().len() ==> call_requires(f, (acc, self.remaining()[i])),
        ensures
            folds(f, self.remaining().reverse(), init, r),
    {
        let ghost sa = self.a.remaining();
        let ghost sb = self.b.remaining();
        proof {
            assert forall|acc: Acc, i: int| 0 <= i < sa.len() implies call_requires(
                f,
                (acc, sa[i]),
            ) by {
                assert(call_requires(f, (acc, self.remaining()[i])));
                assert(self.remaining()[i] == sa[i]);
            }
            assert forall|acc: Acc, i: int| 0 <= i < sb.len() implies call_requires(
                f,
                (acc, sb[i]),
            ) by {
                assert(call_requires(f, (acc, self.remaining()[sa.len() + i])));
                assert(self.remaining()[sa.len() + i] == sb[i]);
            }
        }
        let ghost s0 = self.remaining();
        let Chain { a, b } = self;
        let mid = ops::rfold(b, init, f);
        let r = ops::rfold(a, mid, f);
        proof {
            ops::lemma_folds_append(f, sb.reverse(), sa.reverse(), init, mid, r);
            crate::laws::lemma_chain_backward_order(sa, sb);
            assert(s0.reverse() == sb.reverse() + sa.reverse());
        }
        r
    }

    /// Short-circuit fold over the chain from the back: fold `b` in reverse
    /// first, and if `b` signals an early stop, propagate it at once — `a` is
    /// never touched; otherwise thread the accumulator into `a`'s reverse
    /// fold.
    pub fn try_rfold<Acc, B2, F: Fn(Acc, A::Item) -> ControlFlow<B2, Acc> + Copy>(
        &mut self,
        init: Acc,
        f: F,
    ) -> (r: ControlFlow<B2, Acc>)
        requires
            forall|acc: Acc, i: int|
                0 <= i < old(self).remaining().len() ==> call_requires(
                    f,
                    (acc, old(self).remaining()[i]),
                ),
        ensures
            final(self).fused(),
            exists|used: int|
                {
                    &&& 0 <= used <= old(self).remaining().len()
                    &&& #[trigger] try_folds(f, old(self).remaining().reverse(), init, r, used)
                    &&& match r {
                        ControlFlow::Break(_) => final(self).remaining()
                            == old(self).remaining().take(old(self).remaining().len() - used),
                        ControlFlow::Continue(_) => used == old(self).remaining().len()
                            && final(self).remaining() == Seq::<A::Item>::empty(),
                    }
                },
    {
        let ghost sa = self.a.remaining();
        let ghost sb = self.b.remaining();
        let ghost s0 = sa + sb;
        proof {
            self.a.always_fused();
            self.b.always_fused();
            crate::laws::lemma_chain_backward_order(sa, sb);
            assert forall|acc: Acc, i: int| 0 <= i < sa.len() implies call_requires(
                f,
                (acc, sa[i]),
            ) by {
                assert(call_requires(f, (acc, old(self).remaining()[i])));
                assert(old(self).remaining()[i] == sa[i]);
            }
            assert forall|acc: Acc, i: int| 0 <= i < sb.len() implies call_requires(
                f,
                (acc, sb[i]),
            ) by {
                assert(call_requires(f, (acc, old(self).remaining()[sa.len() + i])));
                assert(old(self).remaining()[sa.len() + i] == sb[i]);
            }
        }
        match ops::try_rfold(&mut self.b, init, f) {
            ControlFlow::Break(x) => {
                proof {
                    let ub = choose|u: int|
                        {
                            &&& 0 <= u <= sb.len()
                            &&& #[trigger] try_folds(
                                f,
                                sb.reverse(),
                                init,
                                ControlFlow::<B2, Acc>::Break(x),
                                u,
                            )
                            &&& self.b.remaining() == sb.take(sb.len() - u)
                        };
                    ops::lemma_try_folds_break_append(f, sb.reverse(), sa.reverse(), init, x, ub);
                    assert(old(self).remaining() == s0);
                    assert(try_folds(
                        f,
                        old(self).remaining().reverse(),
                        init,
                        ControlFlow::<B2, Acc>::Break(x),
                        ub,
                    ));
                    assert(sa + sb.take(sb.len() - ub) =~= s0.take(s0.len() - ub));
                    assert(self.remaining() == old(self).remaining().take(s0.len() - ub));
                }
                ControlFlow::Break(x)
            },
            ControlFlow::Continue(mid) => {
                let r = ops::try_rfold(&mut self.a, mid, f);
                proof {
                    assert(old(self).remaining() == s0);
                    match r {
                        ControlFlow::Break(_) => {
                            let ua = choose|u: int|
                                {
                                    &&& 0 <= u <= sa.len()
                                    &&& #[trigger] try_folds(f, sa.reverse(), mid, r, u)
                                    &&& self.a.remaining() == sa.take(sa.len() - u)
                                };
                            ops::lemma_try_folds_append(
                                f,
                                sb.reverse(),
                                sa.reverse(),
                                init,
                                mid,
                                r,
                                ua,
                            );
                            assert(try_folds(
                                f,
                                old(self).remaining().reverse(),
                                init,
                                r,
                                sb.len() + ua,
                            ));
                            assert(sa.take(sa.len() - ua) + Seq::<A::Item>::empty() =~= s0.take(
                                s0.len() - (sb.len() + ua),
                            ));
                            assert(self.remaining() == old(self).remaining().take(
                                s0.len() - (sb.len() + ua),
                            ));
                        },
                        ControlFlow::Continue(_) => {
                            ops::lemma_try_folds_append(
                                f,
                                sb.reverse(),
                                sa.reverse(),
                                init,
                                mid,
                                r,
                                sa.len() as int,
                            );
                            assert(try_folds(
                                f,
                                old(self).remaining().reverse(),
                                init,
                                r,
                                old(self).remaining().len() as int,
                            ));
                            assert(self.remaining() =~= Seq::<A::Item>::empty());
                        },
                    }
                }
                r
            },
        }
    }
}

impl<A, B> DoubleEndedLender for Chain<A, B> where
    A: DoubleEndedLender,
    B: DoubleEndedLender<Item = <A as Lender>::Item>,
 {
    /// Step `b` from the back; only once `b` is exhausted, step `a` from the
    /// back.
    fn next_back(&mut self) -> (r: Option<A::Item>) {
        let ghost sa = self.a.remaining();
        let ghost sb = self.b.remaining();
        proof {
            self.a.always_fused();
            self.b.always_fused();
        }
        match self.b.next_back() {
            Some(x) => {
                proof {
                    assert((sa + sb).last() == sb.last());
                    assert(sa + sb.drop_last() =~= (sa + sb).drop_last());
                }
                Some(x)
            },
            None => {
                let r = self.a.next_back();
                proof {
                    match r {
                        Some(_) => {
                            assert((sa + sb).last() == sa.last());
                            assert(sa.drop_last() + Seq::<A::Item>::empty() =~= (
                            sa + sb).drop_last());
                        },
                        None => {
                            assert(self.remaining() =~= Seq::<A::Item>::empty());
                        },
                    }
                }
                r
            },
        }
    }
}

/// A chain of two lenders with default values: both sides defaulted, each
/// wrapped in the fusing decorator as every chain is.
impl<A, B> Default for Chain<A, B> where
    A: Default + Lender,
    B: Default + Lender<Item = <A as Lender>::Item>,
 {
    fn default() -> (r: Self)
        ensures
            r.fused(),
    {
        Chain::new(Default::default(), Default::default())
    }
}

} // verus!
