use perms::one_line::{InvalidPermutation, OneLine, OneLineSlice};
use perms::swap::{FromInvolutions, Swap};
use perms::traits::{Composable, Identity, Mapping};

#[test]
fn identity() {
    for i in 0..=20u8 {
        let id = OneLine::identity(i);
        assert!(id.validate().is_ok());
        assert_eq!(&id, &OneLine::new((1..=i).collect()));

        for j in 1..=i {
            assert_eq!(j, id.apply(j));
        }
    }
}

#[test]
fn apply() {
    for i in 0..=10u8 {
        for j in 0..=10u8 {
            let p = OneLine::new((1..=i).map(|x| (x + j - 1) % i + 1).collect());
            assert!(p.validate().is_ok());
            for x in 1..=i {
                assert_eq!((x + j - 1) % i + 1, p.apply(x));
            }
        }
    }
}

#[test]
fn from_involutions() {
    assert_eq!(
        OneLine::from_involutions(&Swap::new(1, 2), &Swap::new(2, 3)),
        OneLine::new(vec![2, 3, 1])
    );
    assert_eq!(
        OneLine::from_involutions(&Swap::new(1, 2), &Swap::new(1, 3)),
        OneLine::new(vec![3, 1, 2])
    );
    assert_eq!(OneLine::from_involutions(&Swap::new(1, 3), &Swap::new(1, 3)), OneLine::identity(3));
}

#[test]
fn identity_of_order_zero_fixes_everything() {
    let id = OneLine::identity(0);
    assert_eq!(id.order(), 0);
    assert!(id.is_identity());
    for v in 0..=255u8 {
        assert_eq!(id.apply(v), v);
    }
}

#[test]
fn identity_is_identity() {
    for n in [0u8, 1, 5, 255] {
        let id = OneLine::identity(n);
        assert!(id.is_identity());
        assert_eq!(id.order(), n);
    }
    assert!(!OneLine::new(vec![2, 1]).is_identity());
}

#[test]
fn apply_beyond_order_is_fixed() {
    let p = OneLine::new(vec![3, 1, 2]);
    assert_eq!(p.apply(4), 4);
    assert_eq!(p.apply(200), 200);
}

#[test]
fn validate_rejects_zero() {
    assert_eq!(OneLine::new(vec![0, 1]).validate(), Err(InvalidPermutation));
}

#[test]
fn validate_rejects_out_of_range() {
    assert_eq!(OneLine::new(vec![1, 3]).validate(), Err(InvalidPermutation));
}

#[test]
fn validate_rejects_duplicate() {
    assert_eq!(OneLine::new(vec![2, 2, 1]).validate(), Err(InvalidPermutation));
}

#[test]
fn validate_accepts_empty() {
    assert_eq!(OneLine::new(vec![]).validate(), Ok(()));
}

#[test]
fn compose_swap_right_in_place() {
    let mut p = OneLine::new(vec![4, 3, 2, 1]);
    p.compose_swap_right(&Swap::new(1, 3));
    assert_eq!(p, OneLine::new(vec![2, 3, 4, 1]));
}

#[test]
fn compose_swap_right_extends_domain() {
    let mut p = OneLine::new(vec![2, 1]);
    p.compose_swap_right(&Swap::new(2, 4));
    assert_eq!(p, OneLine::new(vec![2, 4, 3, 1]));
}

#[test]
fn compose_swap_right_at_order_rebuilds() {
    let mut p = OneLine::new(vec![2, 3, 1]);
    p.compose_swap_right(&Swap::new(1, 3));
    assert_eq!(p, OneLine::new(vec![1, 3, 2]));
}

#[test]
fn compose_swap_right_matches_generic_compose() {
    let perms = [vec![], vec![1], vec![2, 1], vec![3, 1, 2], vec![4, 3, 1, 2, 5]];
    for data in perms.iter() {
        for a in 1..=6u8 {
            for b in a..=6u8 {
                let s = Swap::new(a, b);
                let p = OneLine::new(data.clone());
                let mut fast = p.clone();
                fast.compose_swap_right(&s);
                let mut right = OneLine::identity(p.order());
                right.compose_swap_right(&s);
                let slow: OneLine = p.compose(&right);
                assert_eq!(fast, slow);
            }
        }
    }
}

#[test]
fn compose_applies_right_first() {
    let a = OneLine::new(vec![2, 3, 1]);
    let b = OneLine::new(vec![1, 3, 2, 5, 4]);
    let c: OneLine = a.compose(&b);
    assert_eq!(c, OneLine::new(vec![2, 1, 3, 5, 4]));
    for v in 1..=6u8 {
        assert_eq!(c.apply(v), a.apply(b.apply(v)));
    }
}

#[test]
fn compose_of_swaps_yields_one_line() {
    let c: OneLine = Swap::new(1, 2).compose(&Swap::new(2, 3));
    assert_eq!(c, OneLine::new(vec![2, 3, 1]));
}

#[test]
fn slice_apply_and_order() {
    let s = OneLineSlice::new(&[3, 1, 2]);
    assert_eq!(s.order(), 3);
    assert_eq!(s.apply(1), 3);
    assert_eq!(s.apply(3), 2);
    assert_eq!(s.apply(0), 0);
    assert_eq!(s.apply(7), 7);
}

#[test]
fn slice_identity_small_orders() {
    for n in 0..=6u8 {
        let id = OneLineSlice::identity(n);
        assert!(id.is_identity());
        assert_eq!(id.order(), n);
        for v in 1..=n {
            assert_eq!(id.apply(v), v);
        }
    }
    assert!(!OneLineSlice::new(&[2, 1]).is_identity());
}
