//! The laws of the chaining adapter, stated over the model: the ghost views
//! that the executable contracts speak of.

use vstd::prelude::*;

use crate::ops::{first_of, last_of, nth_of};

verus! {

/// Forward traversal order of a chain: the view of a chain of `a` (length
/// `m`) and `b` (length `n`) holds exactly `m + n` elements — all of `a`'s in
/// their original order, then all of `b`'s in theirs. Together with the step
/// contract, forward traversal therefore yields exactly those elements in
/// that order, and `count` — which answers the length of that view — answers
/// `m + n`.
pub proof fn lemma_chain_forward_order<T>(a: Seq<T>, b: Seq<T>)
    ensures
        (a + b).len() == a.len() + b.len(),
        forall|i: int| 0 <= i < a.len() ==> (a + b)[i] == a[i],
        forall|j: int| 0 <= j < b.len() ==> (a + b)[a.len() + j] == b[j],
{
}

/// Backward traversal order of a chain: the reverse of the chain's view is
/// `b`'s elements reversed followed by `a`'s elements reversed — backward
/// traversal yields the exact reverse of forward traversal.
pub proof fn lemma_chain_backward_order<T>(a: Seq<T>, b: Seq<T>)
    ensures
        (a + b).reverse() == b.reverse() + a.reverse(),
{
    assert((a + b).reverse() =~= b.reverse() + a.reverse());
}

/// A successful skip positions the sequence at the `(k+1)`-th element: after
/// `advance_by(k)` succeeds on a view `s` with `k <= s.len()`, the view is
/// `s.skip(k)`, and a subsequent step yields `s[k]` — the `(k+1)`-th element
/// in forward order — exactly when one exists.
pub proof fn lemma_advance_then_next<T>(s: Seq<T>, k: int)
    requires
        0 <= k <= s.len(),
    ensures
        first_of(s.skip(k)) == nth_of(s, k),
{
    if k < s.len() {
        assert(s.skip(k)[0] == s[k]);
    }
}

/// `nth(k)` is `advance_by(k)` then `next`, in value and in resulting state:
/// the element `nth(k)` yields is the head of the view left by a full skip of
/// `k`, the view `nth(k)` leaves equals the view that skip-then-step leaves,
/// and when fewer than `k` elements remain both operations leave an exhausted
/// (empty, fused) sequence and yield nothing.
pub proof fn lemma_nth_is_advance_then_next<T>(s: Seq<T>, k: int)
    requires
        0 <= k,
    ensures
        k <= s.len() ==> nth_of(s, k) == first_of(s.skip(k)),
        0 <= k < s.len() ==> s.skip(k).skip(1) == s.skip(k + 1),
        k > s.len() ==> nth_of(s, k) == first_of(Seq::<T>::empty()),
{
    if k <= s.len() {
        lemma_advance_then_next(s, k);
        if k < s.len() {
            assert(s.skip(k).skip(1) =~= s.skip(k + 1));
        }
    }
}

/// `nth_back(k)` is `advance_back_by(k)` then `next_back`, in value and in
/// resulting state: the element `nth_back(k)` yields — the `(k+1)`-th from
/// the chain's back — is the last element of the view left by a full backward
/// skip of `k`, the view `nth_back(k)` leaves equals the view that
/// skip-then-step leaves, and when fewer than `k` elements remain both
/// operations leave an exhausted sequence and yield nothing.
pub proof fn lemma_nth_back_is_advance_back_then_next_back<T>(s: Seq<T>, k: int)
    requires
        0 <= k,
    ensures
        k <= s.len() ==> nth_of(s.reverse(), k) == last_of(s.take(s.len() - k)),
        0 <= k < s.len() ==> s.take(s.len() - k).drop_last() == s.take(s.len() - k - 1),
        k > s.len() ==> nth_of(s.reverse(), k) == last_of(Seq::<T>::empty()),
{
    if k < s.len() {
        assert(s.take(s.len() - k).last() == s[s.len() - k - 1]);
        assert(s.reverse()[k] == s[s.len() - k - 1]);
        assert(s.take(s.len() - k).drop_last() =~= s.take(s.len() - k - 1));
    }
}

} // verus!
