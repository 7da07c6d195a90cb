use core::ops::ControlFlow;

use lender::{
    Chain, DoubleEndedLender, ExtendLender, FromLender, IntoLender, Iter, IterLender, IterMut,
    IterMutLender, Lender,
};

#[test]
fn slice_view_bridges_into_a_lending_sequence() {
    let a: [u64; 3] = [1, 2, 3];
    let b: [u64; 2] = [4, 5];
    let sa = &a[..];
    let sb = &b[..];
    let mut c = Chain::new(sa.iter_lender(), sb.iter_lender());
    assert_eq!(c.size_hint(), (5, Some(5)));
    let mut forward: Vec<u64> = Vec::new();
    while let Some(x) = c.next() {
        forward.push(x);
    }
    assert_eq!(forward, vec![1, 2, 3, 4, 5]);

    let mut c2 = Chain::new(sa.iter_lender(), sb.iter_lender());
    assert_eq!(c2.nth(3), Some(4));

    let mut c3 = Chain::new(sa.iter_lender(), sb.iter_lender());
    let mut backward: Vec<u64> = Vec::new();
    while let Some(x) = c3.next_back() {
        backward.push(x);
    }
    assert_eq!(backward, vec![5, 4, 3, 2, 1]);
}

#[test]
fn vec_built_by_from_lender_drains_a_chain_of_mut_views() {
    let mut a: [u64; 2] = [1, 2];
    let mut b: [u64; 1] = [3];
    let mut sa = &mut a[..];
    let mut sb = &mut b[..];
    let c = Chain::new(sa.iter_mut_lender(), sb.iter_mut_lender());
    let v: Vec<u64> = Vec::from_lender(c);
    assert_eq!(v, vec![1, 2, 3]);
}

#[test]
fn from_lender_accepts_a_bare_lender_or_anything_convertible() {
    let a: [u64; 3] = [9, 8, 7];
    let v: Vec<u64> = Vec::from_lender(Iter::new(&a));
    assert_eq!(v, vec![9, 8, 7]);
    let empty: Vec<u64> = Vec::from_lender(Iter::new(&[]));
    assert_eq!(empty, Vec::<u64>::new());
}

#[test]
fn into_lender_on_a_lender_is_the_identity() {
    let a: [u64; 2] = [6, 7];
    let mut l = Iter::new(&a).into_lender();
    assert_eq!(l.next(), Some(6));
    assert_eq!(l.next(), Some(7));
    assert_eq!(l.next(), None);
}

#[test]
fn extend_lender_appends_the_drained_elements() {
    let a: [u64; 2] = [3, 4];
    let b: [u64; 1] = [5];
    let mut v: Vec<u64> = vec![1, 2];
    v.extend_lender(Chain::new(Iter::new(&a), Iter::new(&b)));
    assert_eq!(v, vec![1, 2, 3, 4, 5]);
}

#[test]
fn extend_lender_one_appends_a_single_element() {
    let mut v: Vec<u64> = vec![1];
    ExtendLender::<Iter<u64>>::extend_lender_one(&mut v, 2);
    assert_eq!(v, vec![1, 2]);
}

#[test]
fn extend_lender_reserve_changes_nothing() {
    let mut v: Vec<u64> = vec![1, 2];
    ExtendLender::<Iter<u64>>::extend_lender_reserve(&mut v, 100);
    assert_eq!(v, vec![1, 2]);
}

#[test]
fn vec_lends_read_only_and_mut_traversals() {
    let mut v: Vec<u64> = vec![10, 11];
    {
        let mut l = v.iter_lender();
        assert_eq!(l.next(), Some(10));
        assert_eq!(l.next(), Some(11));
        assert_eq!(l.next(), None);
    }
    {
        let mut m = v.iter_mut_lender();
        assert_eq!(m.next_back(), Some(11));
        assert_eq!(m.next_back(), Some(10));
        assert_eq!(m.next_back(), None);
    }
    assert_eq!(v, vec![10, 11]);
}

#[test]
fn mut_slice_lends_a_read_only_traversal_too() {
    let mut a: [u64; 2] = [1, 2];
    let s = &mut a[..];
    let mut l = s.iter_lender();
    assert_eq!(l.next(), Some(1));
    assert_eq!(l.next(), Some(2));
    assert_eq!(l.next(), None);
}

#[test]
fn cursor_size_hint_is_exact_and_shrinks() {
    let a: [u64; 3] = [1, 2, 3];
    let mut l = Iter::new(&a);
    assert_eq!(l.size_hint(), (3, Some(3)));
    l.next();
    assert_eq!(l.size_hint(), (2, Some(2)));
    l.next_back();
    assert_eq!(l.size_hint(), (1, Some(1)));
}

#[test]
fn cursor_mixes_forward_and_backward_steps() {
    let a: [u64; 4] = [1, 2, 3, 4];
    let mut l = IterMut::new(&a);
    assert_eq!(l.next(), Some(1));
    assert_eq!(l.next_back(), Some(4));
    assert_eq!(l.next(), Some(2));
    assert_eq!(l.next_back(), Some(3));
    assert_eq!(l.next(), None);
    assert_eq!(l.next_back(), None);
}

#[test]
fn free_bulk_operations_work_on_any_lender() {
    let a: [u64; 4] = [2, 4, 6, 8];
    assert_eq!(lender::ops::count(Iter::new(&a)), 4);
    assert_eq!(lender::ops::last(Iter::new(&a)), Some(8));
    let mut l = Iter::new(&a);
    assert_eq!(lender::ops::advance_by(&mut l, 2), Ok(()));
    assert_eq!(lender::ops::nth(&mut l, 0), Some(6));
    let mut l2 = Iter::new(&a);
    assert_eq!(lender::ops::find(&mut l2, |x| *x > 5), Some(6));
    let total = lender::ops::fold(Iter::new(&a), 0u64, |acc, x| acc + x);
    assert_eq!(total, 20);
    let mut l3 = Iter::new(&a);
    let r = lender::ops::try_fold(&mut l3, 0u64, |acc, x| {
        if x == 6 {
            ControlFlow::Break(acc)
        } else {
            ControlFlow::Continue(acc + x)
        }
    });
    assert_eq!(r, ControlFlow::Break(6));
    assert_eq!(l3.next(), Some(8));
    let mut l4 = Iter::new(&a);
    assert_eq!(lender::ops::rfind(&mut l4, |x| *x < 5), Some(4));
    assert_eq!(lender::ops::nth_back(&mut l4, 0), Some(2));
    let mut l5 = Iter::new(&a);
    assert_eq!(lender::ops::advance_back_by(&mut l5, 3), Ok(()));
    assert_eq!(l5.next(), Some(2));
    assert_eq!(l5.next(), None);
    let backward = lender::ops::rfold(Iter::new(&a), Vec::<u64>::new(), |mut acc, x| {
        acc.push(x);
        acc
    });
    assert_eq!(backward, vec![8, 6, 4, 2]);
}
