//! The base iteration contract: a lender yields its elements one step at a
//! time, and its whole behaviour is pinned down by two specification views.
//!
//! `remaining` is the sequence of elements the lender will yield from its
//! current state; `next` on a non-empty lender must yield the head of that
//! sequence and drop it from the view. A lender whose `remaining` is empty
//! answers `None`, but an unfused lender may afterwards hold elements again
//! (revival); `fused` rules that out.

use vstd::prelude::*;

verus! {

/// A step-wise producer of elements.
///
/// The contract of [`Lender::next`] is the defining law: on a non-empty
/// `remaining` view it yields exactly the head and advances the view by one;
/// it answers `None` only when the view is empty. When `fused` holds, an
/// exhausted lender stays exhausted forever.
pub trait Lender: Sized {
    type Item;

    /// The sequence of elements this lender will yield, in order, from its
    /// current state.
    spec fn remaining(&self) -> Seq<Self::Item>;

    /// Whether this lender is guaranteed never to hold elements again once
    /// `remaining` is empty.
    spec fn fused(&self) -> bool;

    /// The lower bound this lender's `size_hint` reports.
    spec fn lower_hint(&self) -> usize;

    /// The upper bound this lender's `size_hint` reports.
    spec fn upper_hint(&self) -> Option<usize>;

    /// The size hints must bracket the number of elements remaining.
    proof fn hint_law(&self)
        ensures
            self.lower_hint() <= self.remaining().len(),
            match self.upper_hint() {
                Some(u) => self.remaining().len() <= u,
                None => true,
            },
    ;

    /// Step once: yield the head of `remaining`, or `None` when it is empty.
    fn next(&mut self) -> (r: Option<Self::Item>)
        ensures
            old(self).fused() ==> final(self).fused(),
            match r {
                Some(x) => old(self).remaining().len() > 0 && x == old(self).remaining()[0]
                    && final(self).remaining() == old(self).remaining().skip(1),
                None => old(self).remaining().len() == 0 && (old(self).fused()
                    ==> final(self).remaining() == Seq::<Self::Item>::empty()),
            },
    ;

    /// An estimate of the number of elements remaining: a guaranteed lower
    /// bound, and an upper bound when one is known.
    fn size_hint(&self) -> (r: (usize, Option<usize>))
        ensures
            r.0 == self.lower_hint(),
            r.1 == self.upper_hint(),
    ;
}

/// The reverse-iteration capability: stepping from the end of the same
/// `remaining` view that forward steps consume from the front.
pub trait DoubleEndedLender: Lender {
    /// Step once from the back: yield the last element of `remaining`, or
    /// `None` when it is empty.
    fn next_back(&mut self) -> (r: Option<Self::Item>)
        ensures
            old(self).fused() ==> final(self).fused(),
            match r {
                Some(x) => old(self).remaining().len() > 0 && x == old(self).remaining().last()
                    && final(self).remaining() == old(self).remaining().drop_last(),
                None => old(self).remaining().len() == 0 && (old(self).fused()
                    ==> final(self).remaining() == Seq::<Self::Item>::empty()),
            },
    ;
}

/// A lender that is fused in every state: once `remaining` is empty it stays
/// empty, so `next` keeps answering `None` with no revival.
pub trait FusedLender: Lender {
    /// Every value of the implementing type satisfies `fused`.
    proof fn always_fused(&self)
        ensures
            self.fused(),
    ;
}

} // verus!
