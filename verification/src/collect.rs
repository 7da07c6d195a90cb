//! The bridging and collection-interop layer: contiguous sequences (slices,
//! vectors) participate as lenders through thin cursor wrappers, and
//! collections opt into a "build from / extend by a lender" vocabulary.
//!
//! A lent element cannot outlive its step here, so the bridging cursors hand
//! out copies of the elements they traverse; the traversal order and the
//! drained views are what the contracts pin down.

use vstd::prelude::*;

use crate::lend::{DoubleEndedLender, FusedLender, Lender};

verus! {

/// A value that can be turned into a lender. Every lender converts to itself,
/// so generic consumers may accept either a ready-made lender or anything
/// that can produce one.
pub trait IntoLender: Sized {
    type Lender: Lender;

    /// The elements the produced lender will yield.
    spec fn future_lends(self) -> Seq<<Self::Lender as Lender>::Item>;

    /// The lower size-hint bound the produced lender will report.
    spec fn future_lower_hint(self) -> usize;

    /// The upper size-hint bound the produced lender will report.
    spec fn future_upper_hint(self) -> Option<usize>;

    /// Produce the lender; it holds exactly `future_lends` and reports the
    /// stated size hints.
    fn into_lender(self) -> (r: Self::Lender)
        ensures
            r.remaining() == self.future_lends(),
            r.lower_hint() == self.future_lower_hint(),
            r.upper_hint() == self.future_upper_hint(),
    ;
}

/// Every lender is trivially convertible into a lender: itself.
impl<L: Lender> IntoLender for L {
    type Lender = L;

    open spec fn future_lends(self) -> Seq<L::Item> {
        self.remaining()
    }

    open spec fn future_lower_hint(self) -> usize {
        self.lower_hint()
    }

    open spec fn future_upper_hint(self) -> Option<usize> {
        self.upper_hint()
    }

    fn into_lender(self) -> (r: L) {
        self
    }
}

/// A collection that can be built by fully draining a lender. Draining is
/// unconditional: the whole source is consumed.
pub trait FromLender<L: IntoLender>: Sized {
    /// What it means for `result` to have been built from the drained
    /// elements `source`.
    spec fn built_from(source: Seq<<L::Lender as Lender>::Item>, result: Self) -> bool;

    /// Drain `lender` and build the collection from every element it yields.
    fn from_lender(lender: L) -> (r: Self)
        ensures
            Self::built_from(lender.future_lends(), r),
    ;
}

/// A vector is built from a lender of its element type by collecting the
/// yielded elements in order.
impl<T, L> FromLender<L> for Vec<T> where
    L: IntoLender,
    <L as IntoLender>::Lender: Lender<Item = T>,
 {
    open spec fn built_from(source: Seq<T>, result: Self) -> bool {
        result@ == source
    }

    #[verifier::loop_isolation(false)]
    fn from_lender(lender: L) -> (r: Self) {
        let mut inner = lender.into_lender();
        let ghost s0 = inner.remaining();
        let mut out: Vec<T> = Vec::new();
        loop
            invariant
                out@ + inner.remaining() == s0,
            decreases inner.remaining().len(),
        {
            let ghost rem = inner.remaining();
            match inner.next() {
                None => {
                    proof {
                        assert(out@ =~= s0);
                    }
                    return out;
                },
                Some(x) => {
                    out.push(x);
                    proof {
                        assert(out@ + inner.remaining() =~= s0);
                    }
                },
            }
        }
    }
}

/// A collection that can be extended by draining a lender, by inserting one
/// pre-obtained element, and — as a pure performance hint — by reserving room
/// for elements to come.
pub trait ExtendLender<L: IntoLender>: Sized {
    /// What it means for `post` to be `pre` extended by the drained elements
    /// `source`.
    spec fn extended(pre: Self, source: Seq<<L::Lender as Lender>::Item>, post: Self) -> bool;

    /// Drain `lender` and insert every element it yields.
    fn extend_lender(&mut self, lender: L)
        ensures
            Self::extended(*old(self), lender.future_lends(), *final(self)),
    ;

    /// Insert exactly one element.
    fn extend_lender_one(&mut self, item: <<L as IntoLender>::Lender as Lender>::Item)
        ensures
            Self::extended(*old(self), seq![item], *final(self)),
    ;

    /// Reserve capacity for `additional` further elements. Purely a
    /// performance hint, never required for correctness: the collection's
    /// contents do not change.
    fn extend_lender_reserve(&mut self, additional: usize)
        ensures
            Self::extended(
                *old(self),
                Seq::<<<L as IntoLender>::Lender as Lender>::Item>::empty(),
                *final(self),
            ),
    ;
}

/// A vector is extended by a lender of its element type by pushing the
/// yielded elements in order.
impl<T, L> ExtendLender<L> for Vec<T> where
    L: IntoLender,
    <L as IntoLender>::Lender: Lender<Item = T>,
 {
    open spec fn extended(pre: Self, source: Seq<T>, post: Self) -> bool {
        post@ == pre@ + source
    }

    #[verifier::loop_isolation(false)]
    fn extend_lender(&mut self, lender: L) {
        let mut inner = lender.into_lender();
        let ghost s0 = inner.remaining();
        let ghost v0 = self@;
        loop
            invariant
                self@ + inner.remaining() == v0 + s0,
            decreases inner.remaining().len(),
        {
            match inner.next() {
                None => {
                    proof {
                        assert(self@ =~= v0 + s0);
                    }
                    return ;
                },
                Some(x) => {
                    self.push(x);
                    proof {
                        assert(self@ + inner.remaining() =~= v0 + s0);
                    }
                },
            }
        }
    }

    fn extend_lender_one(&mut self, item: T) {
        self.push(item);
        proof {
            assert(self@ =~= old(self)@ + seq![item]);
        }
    }

    fn extend_lender_reserve(&mut self, additional: usize) {
        let _ = additional;
        proof {
            assert(self@ =~= old(self)@ + Seq::<T>::empty());
        }
    }
}

/// A read-only traversal cursor over a contiguous view: steps delegate to the
/// underlying storage, and each step hands out a copy of the element at the
/// cursor. The pair of cursors brackets the elements not yet yielded.
#[derive(Clone, Debug)]
pub struct Iter<'a, T> {
    s: &'a [T],
    pos: usize,
    end: usize,
}

impl<'a, T: Copy> Iter<'a, T> {
    /// Whether the cursors sit inside the view; every constructed cursor
    /// satisfies this, and the specification views below are vacuous without
    /// it.
    closed spec fn wf(&self) -> bool {
        self.pos <= self.end <= self.s@.len()
    }

    /// A cursor over the whole of `s`.
    pub fn new(s: &'a [T]) -> (r: Self)
        ensures
            r.remaining() == s@,
            r.fused(),
            r.lower_hint() == s@.len(),
            r.upper_hint() == Some(s@.len() as usize),
    {
        let n = s.len();
        let r = Iter { s, pos: 0, end: n };
        proof {
            assert(r.remaining() =~= s@);
        }
        r
    }
}

impl<'a, T: Copy> Lender for Iter<'a, T> {
    type Item = T;

    closed spec fn remaining(&self) -> Seq<T> {
        if self.wf() {
            self.s@.subrange(self.pos as int, self.end as int)
        } else {
            Seq::empty()
        }
    }

    closed spec fn fused(&self) -> bool {
        true
    }

    closed spec fn lower_hint(&self) -> usize {
        self.remaining().len() as usize
    }

    closed spec fn upper_hint(&self) -> Option<usize> {
        Some(self.remaining().len() as usize)
    }

    proof fn hint_law(&self) {
    }

    fn next(&mut self) -> (r: Option<T>) {
        if self.pos < self.end && self.end <= self.s.len() {
            let x = *vstd::slice::slice_index_get(self.s, self.pos);
            self.pos = self.pos + 1;
            proof {
                assert(self.remaining() =~= old(self).remaining().skip(1));
            }
            Some(x)
        } else {
            None
        }
    }

    fn size_hint(&self) -> (r: (usize, Option<usize>)) {
        let n = if self.pos < self.end && self.end <= self.s.len() {
            self.end - self.pos
        } else {
            0
        };
        (n, Some(n))
    }
}

impl<'a, T: Copy> DoubleEndedLender for Iter<'a, T> {
    fn next_back(&mut self) -> (r: Option<T>) {
        if self.pos < self.end && self.end <= self.s.len() {
            self.end = self.end - 1;
            let x = *vstd::slice::slice_index_get(self.s, self.end);
            proof {
                assert(self.remaining() =~= old(self).remaining().drop_last());
            }
            Some(x)
        } else {
            None
        }
    }
}

impl<'a, T: Copy> FusedLender for Iter<'a, T> {
    proof fn always_fused(&self) {
    }
}

/// The traversal cursor handed out for exclusive access to a contiguous view:
/// requesting it takes the underlying storage by exclusive borrow, and the
/// cursor yields a copy of each element once, in order.
#[derive(Clone, Debug)]
pub struct IterMut<'a, T> {
    s: &'a [T],
    pos: usize,
    end: usize,
}

impl<'a, T: Copy> IterMut<'a, T> {
    closed spec fn wf(&self) -> bool {
        self.pos <= self.end <= self.s@.len()
    }

    /// A cursor over the whole of `s`.
    pub fn new(s: &'a [T]) -> (r: Self)
        ensures
            r.remaining() == s@,
            r.fused(),
            r.lower_hint() == s@.len(),
            r.upper_hint() == Some(s@.len() as usize),
    {
        let n = s.len();
        let r = IterMut { s, pos: 0, end: n };
        proof {
            assert(r.remaining() =~= s@);
        }
        r
    }
}

impl<'a, T: Copy> Lender for IterMut<'a, T> {
    type Item = T;

    closed spec fn remaining(&self) -> Seq<T> {
        if self.wf() {
            self.s@.subrange(self.pos as int, self.end as int)
        } else {
            Seq::empty()
        }
    }

    closed spec fn fused(&self) -> bool {
        true
    }

    closed spec fn lower_hint(&self) -> usize {
        self.remaining().len() as usize
    }

    closed spec fn upper_hint(&self) -> Option<usize> {
        Some(self.remaining().len() as usize)
    }

    proof fn hint_law(&self) {
    }

    fn next(&mut self) -> (r: Option<T>) {
        if self.pos < self.end && self.end <= self.s.len() {
            let x = *vstd::slice::slice_index_get(self.s, self.pos);
            self.pos = self.pos + 1;
            proof {
                assert(self.remaining() =~= old(self).remaining().skip(1));
            }
            Some(x)
        } else {
            None
        }
    }

    fn size_hint(&self) -> (r: (usize, Option<usize>)) {
        let n = if self.pos < self.end && self.end <= self.s.len() {
            self.end - self.pos
        } else {
            0
        };
        (n, Some(n))
    }
}

impl<'a, T: Copy> DoubleEndedLender for IterMut<'a, T> {
    fn next_back(&mut self) -> (r: Option<T>) {
        if self.pos < self.end && self.end <= self.s.len() {
            self.end = self.end - 1;
            let x = *vstd::slice::slice_index_get(self.s, self.end);
            proof {
                assert(self.remaining() =~= old(self).remaining().drop_last());
            }
            Some(x)
        } else {
            None
        }
    }
}

impl<'a, T: Copy> FusedLender for IterMut<'a, T> {
    proof fn always_fused(&self) {
    }
}

/// A value that can produce a read-only lending traversal of itself, tied to
/// the borrow used to request it.
pub trait IterLender<'s> {
    type Lender: Lender;

    /// The elements a requested traversal will yield.
    spec fn lend_seq(&self) -> Seq<<Self::Lender as Lender>::Item>;

    /// Produce the traversal; it holds exactly `lend_seq` and reports its
    /// length as both size-hint bounds.
    fn iter_lender(&'s self) -> (r: Self::Lender)
        ensures
            r.remaining() == self.lend_seq(),
            r.lower_hint() == self.lend_seq().len(),
            r.upper_hint() == Some(self.lend_seq().len() as usize),
    ;
}

/// A value that can produce a traversal of itself through an exclusive
/// borrow, tied to the borrow used to request it; the value itself is not
/// changed by the traversal.
pub trait IterMutLender<'s>: Sized {
    type Lender: Lender;

    /// The elements a requested traversal will yield.
    spec fn lend_mut_seq(&self) -> Seq<<Self::Lender as Lender>::Item>;

    /// Produce the traversal; it holds exactly `lend_mut_seq` and reports
    /// its length as both size-hint bounds.
    fn iter_mut_lender(&'s mut self) -> (r: Self::Lender)
        ensures
            r.remaining() == old(self).lend_mut_seq(),
            r.lower_hint() == old(self).lend_mut_seq().len(),
            r.upper_hint() == Some(old(self).lend_mut_seq().len() as usize),
            *final(self) == *old(self),
    ;
}

impl<'s, 'x, T: Copy + 's> IterLender<'s> for &'x [T] {
    type Lender = Iter<'s, T>;

    open spec fn lend_seq(&self) -> Seq<T> {
        self@
    }

    fn iter_lender(&'s self) -> (r: Iter<'s, T>) {
        Iter::new(*self)
    }
}

impl<'s, 'x, T: Copy + 's> IterLender<'s> for &'x mut [T] {
    type Lender = Iter<'s, T>;

    open spec fn lend_seq(&self) -> Seq<T> {
        self@
    }

    fn iter_lender(&'s self) -> (r: Iter<'s, T>) {
        Iter::new(&**self)
    }
}

impl<'s, T: Copy + 's> IterLender<'s> for Vec<T> {
    type Lender = Iter<'s, T>;

    open spec fn lend_seq(&self) -> Seq<T> {
        self@
    }

    fn iter_lender(&'s self) -> (r: Iter<'s, T>) {
        Iter::new(self.as_slice())
    }
}

impl<'s, 'x, T: Copy + 's> IterMutLender<'s> for &'x mut [T] {
    type Lender = IterMut<'s, T>;

    open spec fn lend_mut_seq(&self) -> Seq<T> {
        self@
    }

    fn iter_mut_lender(&'s mut self) -> (r: IterMut<'s, T>) {
        IterMut::new(&**self)
    }
}

impl<'s, T: Copy + 's> IterMutLender<'s> for Vec<T> {
    type Lender = IterMut<'s, T>;

    open spec fn lend_mut_seq(&self) -> Seq<T> {
        self@
    }

    fn iter_mut_lender(&'s mut self) -> (r: IterMut<'s, T>) {
        IterMut::new(self.as_slice())
    }
}

} // verus!
