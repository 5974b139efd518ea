use vstd::prelude::*;

use crate::swap::{FromInvolutions, Swap};
use crate::traits::{Composable, Identity, Mapping};

verus! {

/// The image of `v` under the one-line sequence `s`: slot `v - 1` holds it for
/// `1 <= v <= s.len()`, and every other point is fixed.
pub open spec fn line_apply(s: Seq<u8>, v: u8) -> u8 {
    if 1 <= v && v <= s.len() {
        s[v - 1]
    } else {
        v
    }
}

/// `s` lists each of `1..=s.len()` exactly once.
pub open spec fn is_bijection(s: Seq<u8>) -> bool {
    &&& forall|i: int| 0 <= i < s.len() ==> 1 <= #[trigger] s[i] <= s.len()
    &&& forall|i: int, j: int| 0 <= i < s.len() && 0 <= j < s.len() && i != j ==> s[i] != s[j]
}

/// The one-line sequence `1, 2, ..., n`.
pub open spec fn identity_line(n: nat) -> Seq<u8> {
    Seq::new(n, |i: int| (i + 1) as u8)
}

/// `p ∘ s` in one-line form, over `max(p.len(), s.hi())` points.
pub open spec fn swapped_right(p: Seq<u8>, s: Swap) -> Seq<u8> {
    let n = if p.len() >= s.hi() { p.len() } else { s.hi() as nat };
    Seq::new(n, |i: int| line_apply(p, s.image((i + 1) as u8)))
}

/// `a ∘ b` in one-line form, over `max(a.len(), b.len())` points.
pub open spec fn composed(a: Seq<u8>, b: Seq<u8>) -> Seq<u8> {
    let n = if a.len() >= b.len() { a.len() } else { b.len() };
    Seq::new(n, |i: int| line_apply(a, line_apply(b, (i + 1) as u8)))
}

/// `left ∘ right` in one-line form, over `max(left.hi(), right.hi())` points.
pub open spec fn involution_pair_line(left: Swap, right: Swap) -> Seq<u8> {
    let n = if left.hi() >= right.hi() { left.hi() } else { right.hi() };
    Seq::new(n as nat, |i: int| left.image(right.image((i + 1) as u8)))
}

/// Right-composing a swap in place agrees with the general composition:
/// `p ∘ s` equals `p` composed with the identity of `p`'s order after `s`.
pub proof fn lemma_swap_right_is_compose(p: Seq<u8>, s: Swap)
    requires
        p.len() <= 255,
        s.wf(),
    ensures
        swapped_right(p, s) == composed(p, swapped_right(identity_line(p.len()), s)),
{
    let q = swapped_right(identity_line(p.len()), s);
    assert forall|i: int| 0 <= i < q.len() implies q[i] == s.image((i + 1) as u8) by {
        let t = s.image((i + 1) as u8);
        assert(1 <= t <= q.len());
    }
    assert(swapped_right(p, s) =~= composed(p, q));
}

/// The stored sequence is not a permutation of `1..=n`.
#[derive(Debug, PartialEq, Eq, Structural, Clone, Copy)]
pub struct InvalidPermutation;

/// Dense form of a permutation: slot `v - 1` holds the image of `v`, for at most 255 points.
///
/// The slots need not form a permutation; `validate` says whether they do.
#[derive(Debug, PartialEq)]
pub struct OneLine(Vec<u8>);

impl View for OneLine {
    type V = Seq<u8>;

    closed spec fn view(&self) -> Seq<u8> {
        self.0@
    }
}

impl OneLine {
    #[verifier::type_invariant]
    spec fn fits_u8(self) -> bool {
        self.0@.len() <= 255
    }

    /// Takes the slots as given, without checking them.
    pub fn new(data: Vec<u8>) -> (r: Self)
        requires
            data@.len() <= 255,
        ensures
            r@ == data@,
    {
        OneLine(data)
    }

    /// Performs `self ∘ swap` (right composition) in place.
    ///
    /// When both points of `swap` lie below the current order the two slots are
    /// exchanged; otherwise the slots are rebuilt over the larger domain.
    pub fn compose_swap_right(&mut self, swap: &Swap)
        ensures
            final(self)@ == swapped_right(old(self)@, *swap),
    {
        proof {
            use_type_invariant(&*self);
        }
        let (x, y) = swap.into_tuple();
        let n = self.order();
        if y < n {
            let mut data: Vec<u8> = Vec::new();
            std::mem::swap(&mut data, &mut self.0);
            let a = data[x as usize - 1];
            let b = data[y as usize - 1];
            data.set(x as usize - 1, b);
            data.set(y as usize - 1, a);
            self.0 = data;
            proof {
                assert(self@ =~= swapped_right(old(self)@, *swap));
            }
        } else {
            let order = y;
            let mut data: Vec<u8> = Vec::with_capacity(order as usize);
            let mut i: usize = 0;
            while i < order as usize
                invariant
                    order == swap.hi(),
                    n <= order,
                    n == self@.len(),
                    self@ == old(self)@,
                    i <= order,
                    data@.len() == i,
                    forall|k: int| 0 <= k < i ==> data@[k] == line_apply(self@, swap.image((k + 1) as u8)),
                decreases order - i,
            {
                let v = swap.apply((i + 1) as u8);
                data.push(self.apply(v));
                i += 1;
            }
            proof {
                assert(data@ =~= swapped_right(old(self)@, *swap));
            }
            self.0 = data;
        }
    }

    /// Checks that the slots hold each of `1..=n` exactly once.
    pub fn validate(&self) -> (r: Result<(), InvalidPermutation>)
        ensures
            r is Ok <==> is_bijection(self@),
    {
        proof {
            use_type_invariant(self);
        }
        let n = self.0.len();
        let mut seen: Vec<bool> = Vec::with_capacity(n);
        let mut j: usize = 0;
        while j < n
            invariant
                j <= n,
                seen@.len() == j,
                forall|k: int| 0 <= k < j ==> !seen@[k],
            decreases n - j,
        {
            seen.push(false);
            j += 1;
        }
        let ghost s = self@;
        let mut i: usize = 0;
        while i < n
            invariant
                s == self@,
                n == s.len(),
                n <= 255,
                i <= n,
                seen@.len() == n,
                forall|k: int| 0 <= k < i ==> 1 <= #[trigger] s[k] <= n,
                forall|k: int, l: int| 0 <= k < i && 0 <= l < i && k != l ==> s[k] != s[l],
                forall|k: int| 0 <= k < i ==> seen@[#[trigger] s[k] - 1],
                forall|m: int| 0 <= m < n && #[trigger] seen@[m] ==> exists|k: int| 0 <= k < i && s[k] == m + 1,
            decreases n - i,
        {
            let x = self.0[i];
            if x == 0 || x as usize > n {
                return Err(InvalidPermutation);
            }
            if seen[x as usize - 1] {
                proof {
                    let k = choose|k: int| 0 <= k < i && s[k] == x;
                    assert(s[k] == s[i as int]);
                }
                return Err(InvalidPermutation);
            }
            seen.set(x as usize - 1, true);
            proof {
                assert forall|k: int| 0 <= k < i implies s[k] != s[i as int] by {
                    assert(seen@[s[k] - 1]);
                }
                assert forall|m: int| 0 <= m < n && #[trigger] seen@[m] implies exists|k: int|
                    0 <= k < i + 1 && s[k] == m + 1 by {
                    if m != x - 1 {
                        let k = choose|k: int| 0 <= k < i && s[k] == m + 1;
                        assert(0 <= k < i + 1 && s[k] == m + 1);
                    } else {
                        assert(s[i as int] == m + 1);
                    }
                }
            }
            i += 1;
        }
        Ok(())
    }
}

impl Clone for OneLine {
    fn clone(&self) -> (r: Self)
        ensures
            r@ == self@,
    {
        proof {
            use_type_invariant(self);
        }
        OneLine(self.0.clone())
    }
}

impl Mapping for OneLine {
    open spec fn image(&self, v: u8) -> u8 {
        line_apply(self@, v)
    }

    open spec fn ord(&self) -> u8 {
        self@.len() as u8
    }

    fn apply(&self, v: u8) -> (r: u8) {
        proof {
            use_type_invariant(self);
        }
        if 1 <= v && v as usize <= self.0.len() {
            self.0[v as usize - 1]
        } else {
            v
        }
    }

    fn order(&self) -> (r: u8)
        ensures
            r as nat == self@.len(),
    {
        proof {
            use_type_invariant(self);
        }
        self.0.len() as u8
    }
}

impl Identity for OneLine {
    open spec fn supports(ord: u8) -> bool {
        true
    }

    open spec fn is_id(&self) -> bool {
        self@ == identity_line(self@.len())
    }

    /// `1, 2, ..., ord`.
    fn identity(ord: u8) -> (r: Self)
        ensures
            r@ == identity_line(ord as nat),
    {
        let mut data: Vec<u8> = Vec::with_capacity(ord as usize);
        let mut i: u8 = 0;
        while i < ord
            invariant
                i <= ord,
                data@ == identity_line(i as nat),
            decreases ord - i,
        {
            data.push(i + 1);
            i += 1;
            proof {
                assert(data@ =~= identity_line(i as nat));
            }
        }
        let r = OneLine(data);
        proof {
            assert(r@ =~= identity_line(r@.len()));
        }
        r
    }

    /// O(n)
    fn is_identity(&self) -> (r: bool) {
        proof {
            use_type_invariant(self);
        }
        let n = self.0.len();
        let mut i: usize = 0;
        while i < n
            invariant
                n == self@.len(),
                n <= 255,
                i <= n,
                forall|k: int| 0 <= k < i ==> self@[k] == k + 1,
            decreases n - i,
        {
            if self.0[i] != (i + 1) as u8 {
                return false;
            }
            i += 1;
        }
        proof {
            assert(self@ =~= identity_line(self@.len()));
        }
        true
    }
}

impl FromInvolutions for OneLine {
    open spec fn admits(left: Swap, right: Swap) -> bool {
        true
    }

    fn from_involutions(left: &Swap, right: &Swap) -> (r: Self)
        ensures
            r@ == involution_pair_line(*left, *right),
    {
        let a = left.order();
        let b = right.order();
        let ord = if a >= b { a } else { b };
        let mut data: Vec<u8> = Vec::with_capacity(ord as usize);
        let mut i: usize = 0;
        while i < ord as usize
            invariant
                i <= ord,
                data@.len() == i,
                forall|k: int| 0 <= k < i ==> data@[k] == left.image(right.image((k + 1) as u8)),
            decreases ord - i,
        {
            let v = (i + 1) as u8;
            data.push(left.apply(right.apply(v)));
            i += 1;
        }
        let r = OneLine(data);
        proof {
            assert(r@ =~= involution_pair_line(*left, *right));
        }
        r
    }
}

impl<T: Mapping> Composable<OneLine> for T {
    /// The result has `max(self.order(), right.order())` slots.
    fn compose(&self, right: &Self) -> (r: OneLine)
        ensures
            r@.len() == if self.ord() >= right.ord() { self.ord() } else { right.ord() },
            forall|i: int| 0 <= i < r@.len() ==> r@[i] == self.image(right.image((i + 1) as u8)),
    {
        let a = self.order();
        let b = right.order();
        let ord = if a >= b { a } else { b };
        let mut data: Vec<u8> = Vec::with_capacity(ord as usize);
        let mut i: usize = 0;
        while i < ord as usize
            invariant
                i <= ord,
                data@.len() == i,
                forall|k: int| 0 <= k < i ==> data@[k] == self.image(right.image((k + 1) as u8)),
            decreases ord - i,
        {
            let v = (i + 1) as u8;
            data.push(self.apply(right.apply(v)));
            i += 1;
        }
        let r = OneLine(data);
        proof {
            assert forall|v: u8| 1 <= v implies #[trigger] r.image(v) == self.image(right.image(v)) by {
                if v > ord {
                    assert(right.image(v) == v);
                    assert(self.image(v) == v);
                } else {
                    assert(r@[v - 1] == self.image(right.image(((v - 1) + 1) as u8)));
                }
            }
        }
        r
    }
}

/// One-line form over borrowed, fixed slots of at most 255 points.
#[derive(Debug, PartialEq)]
pub struct OneLineSlice(&'static [u8]);

impl View for OneLineSlice {
    type V = Seq<u8>;

    closed spec fn view(&self) -> Seq<u8> {
        self.0@
    }
}

impl OneLineSlice {
    #[verifier::type_invariant]
    spec fn fits_u8(self) -> bool {
        self.0@.len() <= 255
    }

    /// Takes the slots as given, without checking them.
    pub fn new(data: &'static [u8]) -> (r: Self)
        requires
            data@.len() <= 255,
        ensures
            r@ == data@,
    {
        OneLineSlice(data)
    }
}

/// Identity slots for the small orders that `OneLineSlice` covers.
const IDENTITY6: [u8; 6] = [1, 2, 3, 4, 5, 6];

impl Identity for OneLineSlice {
    /// Slices exist up to order 6.
    open spec fn supports(ord: u8) -> bool {
        ord <= 6
    }

    open spec fn is_id(&self) -> bool {
        self@ == identity_line(self@.len())
    }

    fn identity(ord: u8) -> (r: Self)
        ensures
            r@ == identity_line(ord as nat),
    {
        let r = match ord {
            0 => OneLineSlice(&[]),
            1 => OneLineSlice(&[1]),
            2 => OneLineSlice(&[1, 2]),
            3 => OneLineSlice(&[1, 2, 3]),
            4 => OneLineSlice(&[1, 2, 3, 4]),
            5 => OneLineSlice(&[1, 2, 3, 4, 5]),
            _ => OneLineSlice(&IDENTITY6),
        };
        proof {
            assert(r@ =~= identity_line(ord as nat));
        }
        r
    }

    /// O(n)
    fn is_identity(&self) -> (r: bool) {
        proof {
            use_type_invariant(self);
        }
        let n = self.0.len();
        let mut i: usize = 0;
        while i < n
            invariant
                n == self@.len(),
                n <= 255,
                i <= n,
                forall|k: int| 0 <= k < i ==> self@[k] == k + 1,
            decreases n - i,
        {
            if self.0[i] != (i + 1) as u8 {
                return false;
            }
            i += 1;
        }
        proof {
            assert(self@ =~= identity_line(self@.len()));
        }
        true
    }
}

impl Mapping for OneLineSlice {
    open spec fn image(&self, v: u8) -> u8 {
        line_apply(self@, v)
    }

    open spec fn ord(&self) -> u8 {
        self@.len() as u8
    }

    fn apply(&self, v: u8) -> (r: u8) {
        proof {
            use_type_invariant(self);
        }
        if v > 0 && v as usize <= self.0.len() {
            self.0[v as usize - 1]
        } else {
            v
        }
    }

    fn order(&self) -> (r: u8) {
        proof {
            use_type_invariant(self);
        }
        self.0.len() as u8
    }
}

} // verus!
