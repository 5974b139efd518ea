use perms::one_line::OneLine;
use perms::swap::{FromInvolutions, Involution, Swap, SwapSeq};
use perms::traits::{Identity, Mapping};

#[test]
fn mul() {
    let mut swap_perm = SwapSeq::identity(4) * Swap::new(1, 2) * Swap::new(2, 3) * Swap::new(3, 4);
    assert_eq!(OneLine::new(vec![2, 3, 4, 1]), swap_perm.evaluate());
    swap_perm *= Swap::new(4, 5);
    assert_eq!(OneLine::new(vec![2, 3, 4, 5, 1]), swap_perm.evaluate());
    swap_perm.compose_left(Swap::new(4, 5));
    assert_eq!(OneLine::new(vec![2, 3, 5, 4, 1]), swap_perm.evaluate());
}

#[test]
fn swap_is_normalized() {
    let s = Swap::new(5, 2);
    assert_eq!(s.low(), 2);
    assert_eq!(s.high(), 5);
    assert_eq!(s.into_tuple(), (2, 5));
    assert_eq!(s, Swap::new(2, 5));
    assert_eq!(s.order(), 5);
}

#[test]
fn swap_contains_and_overlaps() {
    let s = Swap::new(1, 3);
    assert!(s.contains(1));
    assert!(s.contains(3));
    assert!(!s.contains(2));
    assert!(s.overlaps(&Swap::new(3, 4)));
    assert!(!s.overlaps(&Swap::new(2, 4)));
    let i: Involution = Swap::new(2, 2);
    assert_eq!(i.apply(2), 2);
}

#[test]
fn swap_self_inverse() {
    for a in 1..=8u8 {
        for b in 1..=8u8 {
            let s = Swap::new(a, b);
            for v in 0..=10u8 {
                assert_eq!(s.apply(s.apply(v)), v);
            }
        }
    }
    assert_eq!(Swap::new(2, 4).apply(2), 4);
    assert_eq!(Swap::new(2, 4).apply(4), 2);
    assert_eq!(Swap::new(2, 4).apply(3), 3);
}

#[test]
fn evaluate_empty_is_identity_of_one() {
    let w = SwapSeq::new();
    assert!(w.is_identity());
    assert_eq!(w.order(), 1);
    assert_eq!(w.evaluate(), OneLine::identity(1));
}

#[test]
fn evaluate_single_swap() {
    let mut w = SwapSeq::new();
    w.compose_right(Swap::new(2, 4));
    assert_eq!(w.evaluate(), OneLine::new(vec![1, 4, 3, 2]));
}

#[test]
fn evaluate_paths_agree_with_apply() {
    let swaps = [Swap::new(1, 2), Swap::new(3, 5), Swap::new(2, 3), Swap::new(1, 4), Swap::new(5, 6)];
    for k in 0..=swaps.len() {
        let mut w = SwapSeq::new();
        for s in swaps[..k].iter() {
            w.compose_right(*s);
        }
        let line = w.evaluate();
        assert_eq!(line.order(), w.order());
        for v in 1..=8u8 {
            assert_eq!(line.apply(v), w.apply(v));
        }
    }
}

#[test]
fn from_involutions_word() {
    let w = SwapSeq::from_involutions(&Swap::new(1, 2), &Swap::new(2, 3));
    assert_eq!(w.evaluate(), OneLine::new(vec![2, 3, 1]));
    assert_eq!(w.apply(3), 1);
}

#[test]
fn from_cycle_notation_chains_cycles() {
    let w = SwapSeq::from_cycle_notation(vec![vec![1, 2, 3], vec![7], vec![4, 5]]);
    let mut expected = SwapSeq::new();
    expected.compose_right(Swap::new(1, 2));
    expected.compose_right(Swap::new(2, 3));
    expected.compose_right(Swap::new(4, 5));
    assert_eq!(w, expected);
    assert_eq!(w.evaluate(), OneLine::new(vec![2, 3, 1, 5, 4]));
}

#[test]
fn reduce_cancels_equal_pair() {
    let mut w = SwapSeq::new();
    w.compose_right(Swap::new(1, 2));
    w.compose_right(Swap::new(1, 2));
    w.reduce();
    assert_eq!(w, SwapSeq::new());
    assert!(w.is_identity());
    assert_eq!(w.evaluate(), OneLine::identity(1));
}

#[test]
fn reduce_disjoint_pair() {
    let mut w = SwapSeq::new();
    w.compose_right(Swap::new(1, 2));
    w.compose_right(Swap::new(3, 4));
    w.reduce();
    let mut other_order = SwapSeq::new();
    other_order.compose_right(Swap::new(3, 4));
    other_order.compose_right(Swap::new(1, 2));
    assert_eq!(w, other_order);
    assert_eq!(w.evaluate(), OneLine::new(vec![2, 1, 4, 3]));
}

#[test]
fn reduce_cancels_across_commuting_swap() {
    let mut w = SwapSeq::new();
    w.compose_right(Swap::new(1, 2));
    w.compose_right(Swap::new(3, 4));
    w.compose_right(Swap::new(1, 2));
    w.reduce();
    let mut expected = SwapSeq::new();
    expected.compose_right(Swap::new(3, 4));
    assert_eq!(w, expected);
}

#[test]
fn reduce_keeps_overlapping_order() {
    let mut w = SwapSeq::new();
    w.compose_right(Swap::new(1, 2));
    w.compose_right(Swap::new(2, 3));
    let before = w.clone();
    w.reduce();
    assert_eq!(w, before);
}

#[test]
fn reduce_preserves_evaluation() {
    let swaps = [
        Swap::new(1, 2),
        Swap::new(3, 4),
        Swap::new(2, 3),
        Swap::new(1, 2),
        Swap::new(3, 4),
        Swap::new(2, 5),
        Swap::new(2, 5),
        Swap::new(1, 5),
    ];
    let mut w = SwapSeq::new();
    for s in swaps.iter() {
        w.compose_right(*s);
    }
    let mut r = w.clone();
    r.reduce();
    assert_eq!(r.evaluate(), w.evaluate());
    for v in 1..=6u8 {
        assert_eq!(r.apply(v), w.apply(v));
    }
}

#[test]
fn reduce_twice_on_chained_word() {
    let mut w = SwapSeq::new();
    w.compose_right(Swap::new(1, 2));
    w.compose_right(Swap::new(2, 3));
    w.compose_right(Swap::new(3, 4));
    w.compose_right(Swap::new(3, 4));
    w.compose_right(Swap::new(1, 3));
    w.reduce();
    let mut again = w.clone();
    again.reduce();
    assert_eq!(again, w);
}

#[test]
fn word_order_is_largest_point() {
    let w = SwapSeq::identity(9) * Swap::new(2, 7) * Swap::new(1, 3);
    assert_eq!(w.order(), 7);
    let w2 = Swap::new(4, 9) * w;
    assert_eq!(w2.order(), 9);
}

#[test]
fn reduce_twice_keeps_length() {
    let mut w = SwapSeq::new();
    for s in [Swap::new(1, 2), Swap::new(3, 4), Swap::new(2, 3), Swap::new(1, 2), Swap::new(5, 6)] {
        w.compose_right(s);
    }
    w.reduce();
    let once = w.clone();
    w.reduce();
    assert_eq!(w.evaluate(), once.evaluate());
    let mut twice = w.clone();
    twice.reduce();
    assert_eq!(twice, once);
}

#[test]
fn is_identity_on_cancelling_word() {
    let w = SwapSeq::new() * Swap::new(1, 2) * Swap::new(1, 2);
    assert!(w.is_identity());
    let v = Swap::new(2, 3) * w;
    assert!(!v.is_identity());
}

#[test]
fn swap_new_ignores_argument_order() {
    assert_eq!(Swap::new(4, 1), Swap::new(1, 4));
}
