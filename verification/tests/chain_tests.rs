use core::ops::ControlFlow;

use lender::{Chain, DoubleEndedLender, Fuse, Iter, Lender, Reviving};

fn chain_over<'a>(a: &'a [u64], b: &'a [u64]) -> Chain<Iter<'a, u64>, Iter<'a, u64>> {
    Chain::new(Iter::new(a), Iter::new(b))
}

#[test]
fn forward_order_yields_all_of_a_then_all_of_b() {
    let a: [u64; 3] = [1, 2, 3];
    let b: [u64; 2] = [4, 5];
    let mut c = chain_over(&a, &b);
    let mut seen: Vec<u64> = Vec::new();
    while let Some(x) = c.next() {
        seen.push(x);
    }
    assert_eq!(seen, vec![1, 2, 3, 4, 5]);
    assert_eq!(c.next(), None);
}

#[test]
fn count_is_sum_of_lengths() {
    let a: [u64; 3] = [1, 2, 3];
    let b: [u64; 2] = [4, 5];
    assert_eq!(chain_over(&a, &b).count(), 5);
    assert_eq!(chain_over(&a, &[]).count(), 3);
    assert_eq!(chain_over(&[], &[]).count(), 0);
}

#[test]
fn backward_order_is_reverse_of_forward() {
    let a: [u64; 3] = [1, 2, 3];
    let b: [u64; 2] = [4, 5];
    let mut c = chain_over(&a, &b);
    let mut seen: Vec<u64> = Vec::new();
    while let Some(x) = c.next_back() {
        seen.push(x);
    }
    assert_eq!(seen, vec![5, 4, 3, 2, 1]);
    assert_eq!(c.next_back(), None);
}

#[test]
fn size_hint_adds_both_sides() {
    let a: [u64; 3] = [1, 2, 3];
    let b: [u64; 2] = [4, 5];
    let c = chain_over(&a, &b);
    assert_eq!(c.size_hint(), (5, Some(5)));
    let e = chain_over(&[], &[]);
    assert_eq!(e.size_hint(), (0, Some(0)));
}

#[test]
fn advance_by_within_length_positions_at_next_element() {
    let a: [u64; 3] = [1, 2, 3];
    let b: [u64; 2] = [4, 5];
    for k in 0..5usize {
        let mut c = chain_over(&a, &b);
        assert_eq!(c.advance_by(k), Ok(()));
        assert_eq!(c.next(), Some((k + 1) as u64));
    }
    let mut c = chain_over(&a, &b);
    assert_eq!(c.advance_by(5), Ok(()));
    assert_eq!(c.next(), None);
}

#[test]
fn advance_by_past_length_reports_the_deficit() {
    let a: [u64; 3] = [1, 2, 3];
    let b: [u64; 2] = [4, 5];
    let mut c = chain_over(&a, &b);
    assert_eq!(c.advance_by(99), Err(94));
    assert_eq!(c.next(), None);
}

#[test]
fn nth_equals_advance_by_then_next() {
    let a: [u64; 3] = [1, 2, 3];
    let b: [u64; 2] = [4, 5];
    for k in 0..8usize {
        let mut via_nth = chain_over(&a, &b);
        let got = via_nth.nth(k);
        let mut via_advance = chain_over(&a, &b);
        let expected = match via_advance.advance_by(k) {
            Ok(()) => via_advance.next(),
            Err(_) => None,
        };
        assert_eq!(got, expected);
        assert_eq!(via_nth.next(), via_advance.next());
    }
}

#[test]
fn find_yields_first_match_and_resumes_after_it() {
    let a: [u64; 3] = [1, 2, 3];
    let b: [u64; 2] = [4, 5];
    let mut c = chain_over(&a, &b);
    assert_eq!(c.find(|x| *x % 2 == 0), Some(2));
    assert_eq!(c.next(), Some(3));
    let mut c2 = chain_over(&a, &b);
    assert_eq!(c2.find(|x| *x > 3), Some(4));
    assert_eq!(c2.next(), Some(5));
    let mut c3 = chain_over(&a, &b);
    assert_eq!(c3.find(|x| *x > 100), None);
    assert_eq!(c3.next(), None);
}

#[test]
fn last_prefers_b_and_falls_back_to_a() {
    let a: [u64; 3] = [1, 2, 3];
    let b: [u64; 2] = [4, 5];
    assert_eq!(chain_over(&a, &b).last(), Some(5));
    assert_eq!(chain_over(&a, &[]).last(), Some(3));
    assert_eq!(chain_over(&[], &[]).last(), None);
}

#[test]
fn fused_chain_never_observes_a_revival() {
    // The first operand reports exhaustion once and only afterwards holds 9:
    // the chain, fusing both operands, must never yield that 9.
    let b: [u64; 1] = [7];
    let mut c = Chain::new(Reviving::new(9u64), Iter::new(&b));
    assert_eq!(c.next(), Some(7));
    assert_eq!(c.next(), None);
    assert_eq!(c.next(), None);
    assert_eq!(c.next(), None);
}

#[test]
fn fuse_alone_suppresses_a_revival() {
    let mut f = Fuse::new(Reviving::new(9u64));
    assert_eq!(f.next(), None);
    assert_eq!(f.next(), None);
    // Unfused, the same lender revives.
    let mut r = Reviving::new(9u64);
    assert_eq!(r.next(), None);
    assert_eq!(r.next(), Some(9));
    assert_eq!(r.next(), None);
}

#[test]
fn try_fold_stop_in_a_leaves_b_untouched() {
    let a: [u64; 3] = [1, 2, 3];
    let b: [u64; 2] = [4, 5];
    let mut c = chain_over(&a, &b);
    let r = c.try_fold(0u64, |acc, x| {
        if x == 2 {
            ControlFlow::Break(acc)
        } else {
            ControlFlow::Continue(acc + x)
        }
    });
    assert_eq!(r, ControlFlow::Break(1));
    // The stop came at the second element of a: the rest of a and the whole
    // of b are still there.
    assert_eq!(c.next(), Some(3));
    assert_eq!(c.next(), Some(4));
    assert_eq!(c.next(), Some(5));
    assert_eq!(c.next(), None);
}

#[test]
fn try_fold_without_stop_folds_everything() {
    let a: [u64; 3] = [1, 2, 3];
    let b: [u64; 2] = [4, 5];
    let mut c = chain_over(&a, &b);
    let r = c.try_fold(0u64, |acc, x| ControlFlow::<u64, u64>::Continue(acc + x));
    assert_eq!(r, ControlFlow::Continue(15));
    assert_eq!(c.next(), None);
}

#[test]
fn fold_visits_a_then_b_in_order() {
    let a: [u64; 3] = [1, 2, 3];
    let b: [u64; 2] = [4, 5];
    let seen = chain_over(&a, &b).fold(Vec::<u64>::new(), |mut acc, x| {
        acc.push(x);
        acc
    });
    assert_eq!(seen, vec![1, 2, 3, 4, 5]);
}

#[test]
fn rfold_visits_b_reversed_then_a_reversed() {
    let a: [u64; 3] = [1, 2, 3];
    let b: [u64; 2] = [4, 5];
    let seen = chain_over(&a, &b).rfold(Vec::<u64>::new(), |mut acc, x| {
        acc.push(x);
        acc
    });
    assert_eq!(seen, vec![5, 4, 3, 2, 1]);
}

#[test]
fn try_rfold_stop_in_b_leaves_a_untouched() {
    let a: [u64; 3] = [1, 2, 3];
    let b: [u64; 2] = [4, 5];
    let mut c = chain_over(&a, &b);
    let r = c.try_rfold(0u64, |acc, x| {
        if x == 4 {
            ControlFlow::Break(acc)
        } else {
            ControlFlow::Continue(acc + x)
        }
    });
    assert_eq!(r, ControlFlow::Break(5));
    assert_eq!(c.next_back(), Some(3));
    assert_eq!(c.next(), Some(1));
}

#[test]
fn try_rfold_without_stop_folds_everything_backward() {
    let a: [u64; 3] = [1, 2, 3];
    let b: [u64; 2] = [4, 5];
    let mut c = chain_over(&a, &b);
    let r = c.try_rfold(Vec::<u64>::new(), |mut acc, x| {
        acc.push(x);
        ControlFlow::<u64, Vec<u64>>::Continue(acc)
    });
    assert_eq!(r, ControlFlow::Continue(vec![5, 4, 3, 2, 1]));
    assert_eq!(c.next(), None);
}

#[test]
fn advance_back_by_and_nth_back_mirror_the_forward_side() {
    let a: [u64; 3] = [1, 2, 3];
    let b: [u64; 2] = [4, 5];
    let mut c = chain_over(&a, &b);
    assert_eq!(c.advance_back_by(2), Ok(()));
    assert_eq!(c.next_back(), Some(3));
    let mut c2 = chain_over(&a, &b);
    assert_eq!(c2.advance_back_by(9), Err(4));
    assert_eq!(c2.next_back(), None);
    for k in 0..8usize {
        let mut c3 = chain_over(&a, &b);
        let expected = [5u64, 4, 3, 2, 1].get(k).copied();
        assert_eq!(c3.nth_back(k), expected);
    }
}

#[test]
fn rfind_yields_first_match_from_the_back() {
    let a: [u64; 3] = [1, 2, 3];
    let b: [u64; 2] = [4, 5];
    let mut c = chain_over(&a, &b);
    assert_eq!(c.rfind(|x| *x % 2 == 0), Some(4));
    assert_eq!(c.next_back(), Some(3));
    let mut c2 = chain_over(&a, &b);
    assert_eq!(c2.rfind(|x| *x > 100), None);
    assert_eq!(c2.next_back(), None);
}

#[test]
fn empty_a_passes_through_to_b() {
    let b: [u64; 1] = [7];
    let mut c = chain_over(&[], &b);
    assert_eq!(c.next(), Some(7));
    assert_eq!(c.next(), None);
    assert_eq!(chain_over(&[], &b).last(), Some(7));
}

#[test]
fn empty_b_passes_through_to_a() {
    let a: [u64; 2] = [1, 2];
    let mut c = chain_over(&a, &[]);
    assert_eq!(c.next(), Some(1));
    assert_eq!(c.next(), Some(2));
    assert_eq!(c.next(), None);
}
