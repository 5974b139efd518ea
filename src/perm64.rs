use vstd::prelude::*;

use crate::one_line::{involution_pair_line, line_apply};
use crate::swap::{FromInvolutions, Swap};
use crate::traits::{Composable, Identity, Mapping};

verus! {

/// The packed identity: nibble `k` holds `k`.
pub const IDENTITY_BITS: u64 = 0xFEDCBA9876543210;

/// Nibble `k` (from the least significant end) of `b`.
pub open spec fn nibble(b: u64, k: u64) -> u64 {
    (b >> ((4 * k) as u64)) & 15
}

/// The first `n` nibbles hold `f(1) - 1, ..., f(n) - 1`; the rest are zero.
pub open spec fn pack(f: spec_fn(u8) -> u8, n: nat) -> u64
    decreases n,
{
    if n == 0 {
        0
    } else {
        pack(f, (n - 1) as nat) | (((f(n as u8) - 1) as u64) << ((4 * (n - 1)) as u64))
    }
}

proof fn lemma_nibble_small(b: u64, k: u64)
    ensures
        nibble(b, k) <= 15,
{
    assert((b >> ((4 * k) as u64)) & 15 <= 15) by (bit_vector);
}

proof fn lemma_identity_nibble(k: u64)
    requires
        k < 16,
    ensures
        nibble(IDENTITY_BITS, k) == k,
{
    assert(k < 16 ==> (0xFEDCBA9876543210u64 >> ((4 * k) as u64)) & 15 == k) by (bit_vector);
}

proof fn lemma_or_nibble(a: u64, x: u64, m: u64, k: u64)
    requires
        x < 16,
        m < 16,
        k < 16,
        a >> ((4 * m) as u64) == 0,
    ensures
        nibble(a | (x << ((4 * m) as u64)), k) == if k == m { x } else { nibble(a, k) },
        k >= m ==> nibble(a, k) == 0,
        m + 1 < 16 ==> (a | (x << ((4 * m) as u64))) >> ((4 * (m + 1)) as u64) == 0,
{
    assert(x < 16 && m < 16 && k < 16 && a >> ((4 * m) as u64) == 0 ==> ((a | (x << ((4 * m) as u64))) >> ((4
        * k) as u64)) & 15 == if k == m {
        x
    } else {
        (a >> ((4 * k) as u64)) & 15
    }) by (bit_vector);
    assert(m < 16 && k < 16 && k >= m && a >> ((4 * m) as u64) == 0 ==> (a >> ((4 * k) as u64)) & 15 == 0)
        by (bit_vector);
    assert(x < 16 && m + 1 < 16 && a >> ((4 * m) as u64) == 0 ==> (a | (x << ((4 * m) as u64))) >> ((4 * (m
        + 1)) as u64) == 0) by (bit_vector);
}

/// Nibble `k` of `pack(f, n)` is `f(k + 1) - 1` below `n` and zero from `n` on.
proof fn lemma_pack(f: spec_fn(u8) -> u8, n: nat, k: u64)
    requires
        n <= 16,
        k < 16,
        forall|j: u8| 1 <= j <= n ==> 1 <= #[trigger] f(j) <= 16,
    ensures
        nibble(pack(f, n), k) == if k < n { (f((k + 1) as u8) - 1) as u64 } else { 0 },
        n < 16 ==> pack(f, n) >> ((4 * n) as u64) == 0,
    decreases n,
{
    if n == 0 {
        assert(nibble(0, k) == 0) by (bit_vector);
        assert(0u64 >> 0u64 == 0) by (bit_vector);
    } else {
        let m = (n - 1) as u64;
        lemma_pack(f, (n - 1) as nat, k);
        lemma_pack(f, (n - 1) as nat, m);
        let x = (f(n as u8) - 1) as u64;
        lemma_or_nibble(pack(f, (n - 1) as nat), x, m, k);
    }
}

/// Dense form of a permutation of at most 16 points: nibble `k` holds the image of
/// `k + 1`, minus one. The nibbles are taken to form a permutation of `0..16`; this is
/// not checked.
///
/// `0xfedcba9876543210` is the identity, and the swap of 2 and 4 is `0xfe...541230`.
#[derive(Debug, PartialEq, Eq, Structural, PartialOrd, Clone, Copy)]
pub struct Perm64(u64);

/// The largest `j <= n` whose nibble is not `j - 1`, or 1 when there is none.
pub open spec fn top_moved(b: u64, n: nat) -> u8
    decreases n,
{
    if n == 0 {
        1
    } else if nibble(b, (n - 1) as u64) != (n - 1) {
        n as u8
    } else {
        top_moved(b, (n - 1) as nat)
    }
}

proof fn lemma_top_moved(b: u64, n: nat, v: u8)
    requires
        n <= 16,
        top_moved(b, n) < v <= n,
    ensures
        nibble(b, (v - 1) as u64) == v - 1,
    decreases n,
{
    if nibble(b, (n - 1) as u64) == (n - 1) && v < n {
        lemma_top_moved(b, (n - 1) as nat, v);
    }
}

impl Perm64 {
    /// The packed word.
    pub closed spec fn bits(self) -> u64 {
        self.0
    }

    /// The packed form of `left ∘ right`.
    pub closed spec fn from_pair(left: Swap, right: Swap) -> Perm64 {
        Perm64(pack(|j: u8| left.image(right.image(j)), 16))
    }
}

/// The packed and the one-line forms of `left ∘ right` send every point to the same place.
pub proof fn lemma_representations_agree(left: Swap, right: Swap, v: u8)
    requires
        left.wf(),
        right.wf(),
        left.hi() <= 16,
        right.hi() <= 16,
        1 <= v,
    ensures
        Perm64::from_pair(left, right).image(v) == line_apply(involution_pair_line(left, right), v),
{
    let f = |j: u8| left.image(right.image(j));
    if v <= 16 {
        lemma_pack(f, 16, (v - 1) as u64);
    }
}

impl Mapping for Perm64 {
    open spec fn image(&self, v: u8) -> u8 {
        if 1 <= v <= 16 {
            (nibble(self.bits(), (v - 1) as u64) + 1) as u8
        } else {
            v
        }
    }

    open spec fn ord(&self) -> u8 {
        top_moved(self.bits(), 16)
    }

    fn apply(&self, v: u8) -> (r: u8) {
        if v == 0 || v > 16 {
            v
        } else {
            let k = (v - 1) as u64;
            proof {
                lemma_nibble_small(self.0, k);
            }
            ((self.0 >> (4 * k)) & 0xF) as u8 + 1
        }
    }

    fn order(&self) -> (r: u8) {
        let mut i: u64 = 16;
        while i > 0
            invariant
                i <= 16,
                top_moved(self.0, 16) == top_moved(self.0, i as nat),
            decreases i,
        {
            i -= 1;
            if (self.0 >> (4 * i)) & 0xF != i {
                proof {
                    assert forall|v: u8| v > i + 1 implies #[trigger] self.image(v) == v by {
                        if v <= 16 {
                            lemma_top_moved(self.0, 16, v);
                        }
                    }
                }
                return i as u8 + 1;
            }
        }
        proof {
            assert forall|v: u8| v > 1 implies #[trigger] self.image(v) == v by {
                if v <= 16 {
                    lemma_top_moved(self.0, 16, v);
                }
            }
        }
        1
    }
}

impl Composable<Perm64> for Perm64 {
    fn compose(&self, right: &Self) -> (r: Perm64) {
        let ghost f = |j: u8| self.image(right.image(j));
        let mut data: u64 = 0;
        let mut i: u8 = 1;
        while i <= 16
            invariant
                1 <= i <= 17,
                f == (|j: u8| self.image(right.image(j))),
                data == pack(f, (i - 1) as nat),
            decreases 17 - i,
        {
            let x = self.apply(right.apply(i));
            proof {
                lemma_nibble_small(right.0, (i - 1) as u64);
                lemma_nibble_small(self.0, (right.image(i) - 1) as u64);
            }
            data = data | (((x - 1) as u64) << (4 * (i - 1) as u64));
            i += 1;
        }
        let r = Perm64(data);
        proof {
            assert forall|j: u8| 1 <= j <= 16 implies 1 <= #[trigger] f(j) <= 16 by {
                lemma_nibble_small(right.0, (j - 1) as u64);
                lemma_nibble_small(self.0, (right.image(j) - 1) as u64);
            }
            assert forall|v: u8| 1 <= v implies #[trigger] r.image(v) == self.image(right.image(v)) by {
                if v <= 16 {
                    lemma_pack(f, 16, (v - 1) as u64);
                }
            }
        }
        r
    }
}

impl FromInvolutions for Perm64 {
    /// Both transpositions move points of `1..=16` only.
    open spec fn admits(left: Swap, right: Swap) -> bool {
        left.hi() <= 16 && right.hi() <= 16
    }

    fn from_involutions(left: &Swap, right: &Swap) -> (r: Self)
        ensures
            r == Perm64::from_pair(*left, *right),
    {
        let ghost f = |j: u8| left.image(right.image(j));
        let mut data: u64 = 0;
        let mut i: u8 = 1;
        proof {
            use_type_invariant(left);
            use_type_invariant(right);
        }
        while i <= 16
            invariant
                1 <= i <= 17,
                left.hi() <= 16,
                right.hi() <= 16,
                left.wf(),
                right.wf(),
                f == (|j: u8| left.image(right.image(j))),
                data == pack(f, (i - 1) as nat),
            decreases 17 - i,
        {
            let x = left.apply(right.apply(i));
            data = data | (((x - 1) as u64) << (4 * (i - 1) as u64));
            i += 1;
        }
        let r = Perm64(data);
        proof {
            assert forall|j: u8| 1 <= j <= 16 implies 1 <= #[trigger] f(j) <= 16 by {}
            assert forall|v: u8| 1 <= v implies #[trigger] r.image(v) == left.image(right.image(v)) by {
                if v <= 16 {
                    lemma_pack(f, 16, (v - 1) as u64);
                }
            }
        }
        r
    }
}

impl Identity for Perm64 {
    open spec fn supports(ord: u8) -> bool {
        true
    }

    open spec fn is_id(&self) -> bool {
        self.bits() == IDENTITY_BITS
    }

    /// The identity on all 16 points; the size is not needed.
    fn identity(_ord: u8) -> (r: Self) {
        let r = Perm64(IDENTITY_BITS);
        proof {
            assert forall|v: u8| #[trigger] r.image(v) == v by {
                if 1 <= v <= 16 {
                    lemma_identity_nibble((v - 1) as u64);
                }
            }
        }
        r
    }

    fn is_identity(&self) -> (r: bool) {
        self.0 == IDENTITY_BITS
    }
}

} // verus!
