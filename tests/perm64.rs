use perms::one_line::OneLine;
use perms::perm64::Perm64;
use perms::swap::{FromInvolutions, Swap};
use perms::traits::{Composable, Identity, Mapping};

#[test]
fn perm64_identity() {
    let id = Perm64::identity(7);
    assert!(id.is_identity());
    assert_eq!(id.order(), 1);
    for v in 1..=20u8 {
        assert_eq!(id.apply(v), v);
    }
}

#[test]
fn perm64_from_involutions_matches_one_line() {
    for a in 1..=16u8 {
        for b in 1..=16u8 {
            for c in [1u8, 2, 5, 16] {
                for d in [1u8, 3, 9, 16] {
                    let l = Swap::new(a, b);
                    let r = Swap::new(c, d);
                    let p = Perm64::from_involutions(&l, &r);
                    let q = OneLine::from_involutions(&l, &r);
                    for v in 1..=17u8 {
                        assert_eq!(p.apply(v), q.apply(v));
                    }
                }
            }
        }
    }
}

#[test]
fn perm64_order_and_values() {
    let p = Perm64::from_involutions(&Swap::new(2, 4), &Swap::new(4, 4));
    assert_eq!(p.order(), 4);
    assert_eq!(p.apply(2), 4);
    assert_eq!(p.apply(4), 2);
    assert_eq!(p.apply(3), 3);
    assert!(!p.is_identity());
    let top = Perm64::from_involutions(&Swap::new(1, 16), &Swap::new(1, 1));
    assert_eq!(top.order(), 16);
    assert_eq!(top.apply(16), 1);
    let same = Perm64::from_involutions(&Swap::new(3, 5), &Swap::new(3, 5));
    assert!(same.is_identity());
}

#[test]
fn perm64_compose_matches_apply() {
    let a = Perm64::from_involutions(&Swap::new(1, 2), &Swap::new(2, 3));
    let b = Perm64::from_involutions(&Swap::new(3, 9), &Swap::new(1, 16));
    let c: Perm64 = a.compose(&b);
    for v in 1..=16u8 {
        assert_eq!(c.apply(v), a.apply(b.apply(v)));
    }
    let d: OneLine = a.compose(&b);
    for v in 1..=16u8 {
        assert_eq!(d.apply(v), c.apply(v));
    }
    assert_eq!(c.apply(3), 9);
    assert_eq!(c.apply(16), 2);
}
