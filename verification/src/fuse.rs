//! The exhaustion-fusing wrapper, and a deliberately unfused lender that shows
//! what the wrapper guards against.

use vstd::prelude::*;

use crate::lend::{DoubleEndedLender, FusedLender, Lender};

verus! {

/// A decorator guaranteeing that once the wrapped lender reports exhaustion,
/// the wrapper reports exhaustion on every later step, whatever the wrapped
/// lender would do after that point. The `done` flag is set the first time the
/// wrapped lender answers `None`; from then on the wrapped lender is never
/// queried again.
#[derive(Clone, Debug)]
pub struct Fuse<L> {
    lender: L,
    done: bool,
}

impl<L: Lender> Fuse<L> {
    /// Wrap a lender; the wrapper starts out yielding exactly what the
    /// wrapped lender holds now.
    pub fn new(lender: L) -> (r: Self)
        ensures
            r.remaining() == lender.remaining(),
            r.fused(),
            r.lower_hint() == lender.lower_hint(),
            r.upper_hint() == lender.upper_hint(),
    {
        Fuse { lender, done: false }
    }
}

impl<L: Lender> Lender for Fuse<L> {
    type Item = L::Item;

    closed spec fn remaining(&self) -> Seq<L::Item> {
        if self.done {
            Seq::empty()
        } else {
            self.lender.remaining()
        }
    }

    closed spec fn fused(&self) -> bool {
        true
    }

    closed spec fn lower_hint(&self) -> usize {
        if self.done {
            0
        } else {
            self.lender.lower_hint()
        }
    }

    closed spec fn upper_hint(&self) -> Option<usize> {
        if self.done {
            Some(0)
        } else {
            self.lender.upper_hint()
        }
    }

    proof fn hint_law(&self) {
        if !self.done {
            self.lender.hint_law();
        }
    }

    fn next(&mut self) -> (r: Option<L::Item>) {
        if self.done {
            None
        } else {
            match self.lender.next() {
                Some(x) => Some(x),
                None => {
                    self.done = true;
                    None
                },
            }
        }
    }

    fn size_hint(&self) -> (r: (usize, Option<usize>)) {
        if self.done {
            (0, Some(0))
        } else {
            self.lender.size_hint()
        }
    }
}

impl<L: DoubleEndedLender> DoubleEndedLender for Fuse<L> {
    fn next_back(&mut self) -> (r: Option<L::Item>) {
        if self.done {
            None
        } else {
            match self.lender.next_back() {
                Some(x) => Some(x),
                None => {
                    self.done = true;
                    None
                },
            }
        }
    }
}

impl<L: Lender> FusedLender for Fuse<L> {
    proof fn always_fused(&self) {
    }
}

/// A lender that reports exhaustion once before yielding its single element:
/// it starts with an empty `remaining` view, answers `None` on the first step,
/// and only then holds the element. It is not fused, and it is what the fusing
/// wrapper exists to contain: wrapped in [`Fuse`] (as the chaining adapter
/// does), the revived element is never observed.
#[derive(Clone, Debug)]
pub struct Reviving<T> {
    item: Option<T>,
    stalled: bool,
}

impl<T: Copy> Reviving<T> {
    /// A reviving lender holding `item`; its view starts out empty.
    pub fn new(item: T) -> (r: Self)
        ensures
            r.remaining() == Seq::<T>::empty(),
            !r.fused(),
    {
        Reviving { item: Some(item), stalled: false }
    }
}

impl<T: Copy> Lender for Reviving<T> {
    type Item = T;

    closed spec fn remaining(&self) -> Seq<T> {
        if self.stalled {
            match self.item {
                Some(x) => seq![x],
                None => Seq::empty(),
            }
        } else {
            Seq::empty()
        }
    }

    closed spec fn fused(&self) -> bool {
        false
    }

    closed spec fn lower_hint(&self) -> usize {
        0
    }

    closed spec fn upper_hint(&self) -> Option<usize> {
        None
    }

    proof fn hint_law(&self) {
    }

    fn next(&mut self) -> (r: Option<T>) {
        if !self.stalled {
            self.stalled = true;
            None
        } else {
            let r = self.item;
            self.item = None;
            proof {
                assert(self.remaining() =~= Seq::<T>::empty());
                if r is Some {
                    assert(old(self).remaining().skip(1) =~= self.remaining());
                }
            }
            r
        }
    }

    fn size_hint(&self) -> (r: (usize, Option<usize>)) {
        (0, None)
    }
}

} // verus!
