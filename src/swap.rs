use vstd::prelude::*;

use std::collections::VecDeque;

use crate::one_line::{identity_line, involution_pair_line, line_apply, swapped_right, OneLine};
use crate::traits::{Identity, Mapping};

verus! {

/// The transposition exchanging two points, stored as `(low, high)` with `1 <= low <= high`.
///
/// `low == high` is the degenerate swap, which fixes every point.
#[derive(Debug, PartialEq, Eq, Structural, PartialOrd, Ord, Clone, Copy)]
pub struct Swap(u8, u8);

/// Another name for a transposition: it is its own inverse.
pub type Involution = Swap;

impl Swap {
    /// The smaller of the two points.
    pub closed spec fn lo(self) -> u8 {
        self.0
    }

    /// The larger of the two points.
    pub closed spec fn hi(self) -> u8 {
        self.1
    }

    /// What every `Swap` satisfies.
    #[verifier::type_invariant]
    pub open spec fn wf(self) -> bool {
        1 <= self.lo() <= self.hi()
    }

    pub open spec fn has(self, x: u8) -> bool {
        self.lo() == x || self.hi() == x
    }

    /// The two transpositions share a point.
    pub open spec fn meets(self, other: Swap) -> bool {
        other.has(self.lo()) || other.has(self.hi())
    }

    /// The transposition of `a` and `b` with its points put in order.
    pub closed spec fn pair(a: u8, b: u8) -> Swap {
        if a <= b {
            Swap(a, b)
        } else {
            Swap(b, a)
        }
    }

    /// The transposition of `a` and `b`, in either order.
    pub fn new(a: u8, b: u8) -> (r: Self)
        requires
            1 <= a,
            1 <= b,
        ensures
            r == Swap::pair(a, b),
            r.lo() == if a <= b { a } else { b },
            r.hi() == if a <= b { b } else { a },
    {
        if a <= b {
            Swap(a, b)
        } else {
            Swap(b, a)
        }
    }

    pub fn contains(&self, x: u8) -> (r: bool)
        ensures
            r == self.has(x),
    {
        self.0 == x || self.1 == x
    }

    /// Whether the two transpositions share a point; disjoint ones commute.
    pub fn overlaps(&self, other: &Self) -> (r: bool)
        ensures
            r == self.meets(*other),
    {
        other.contains(self.0) || other.contains(self.1)
    }

    pub fn into_tuple(&self) -> (r: (u8, u8))
        ensures
            r == (self.lo(), self.hi()),
            1 <= r.0 <= r.1,
    {
        proof {
            use_type_invariant(self);
        }
        (self.0, self.1)
    }

    pub fn low(&self) -> (r: u8)
        ensures
            r == self.lo(),
            1 <= r <= self.hi(),
    {
        proof {
            use_type_invariant(self);
        }
        self.0
    }

    pub fn high(&self) -> (r: u8)
        ensures
            r == self.hi(),
            1 <= self.lo() <= r,
    {
        proof {
            use_type_invariant(self);
        }
        self.1
    }
}

impl Mapping for Swap {
    open spec fn image(&self, v: u8) -> u8 {
        if v == self.lo() {
            self.hi()
        } else if v == self.hi() {
            self.lo()
        } else {
            v
        }
    }

    open spec fn ord(&self) -> u8 {
        self.hi()
    }

    fn apply(&self, v: u8) -> (r: u8) {
        if v == self.0 {
            self.1
        } else if v == self.1 {
            self.0
        } else {
            v
        }
    }

    fn order(&self) -> (r: u8) {
        proof {
            use_type_invariant(self);
        }
        self.1
    }
}

/// Representations that can be built straight from the product of two transpositions.
pub trait FromInvolutions: Mapping + Sized {
    /// Whether the representation can hold `left ∘ right`.
    spec fn admits(left: Swap, right: Swap) -> bool;

    /// The permutation `left ∘ right`: `right` acts first.
    fn from_involutions(left: &Swap, right: &Swap) -> (r: Self)
        requires
            Self::admits(*left, *right),
        ensures
            forall|v: u8| 1 <= v ==> #[trigger] r.image(v) == left.image(right.image(v)),
    ;
}

/// Two transpositions with the same points are equal.
pub proof fn lemma_swap_ext(a: Swap, b: Swap)
    requires
        a.lo() == b.lo(),
        a.hi() == b.hi(),
    ensures
        a == b,
{
}

/// The order in which the points are given does not matter.
pub proof fn lemma_pair_symmetric(a: u8, b: u8)
    ensures
        Swap::pair(a, b) == Swap::pair(b, a),
        Swap::pair(a, b).lo() == if a <= b { a } else { b },
        Swap::pair(a, b).hi() == if a <= b { b } else { a },
{
}

/// Applying a transposition twice gives back the point.
pub proof fn lemma_swap_self_inverse(s: Swap, v: u8)
    ensures
        s.image(s.image(v)) == v,
{
}

/// Transpositions that share no point commute.
pub proof fn lemma_disjoint_commute(a: Swap, b: Swap, v: u8)
    requires
        !a.meets(b),
    ensures
        a.image(b.image(v)) == b.image(a.image(v)),
{
}

/// The image of `v` under the word `w`: the last transposition acts first,
/// so `w[0] ∘ w[1] ∘ ... ∘ w[k - 1]`.
pub open spec fn word_image(w: Seq<Swap>, v: u8) -> u8
    decreases w.len(),
{
    if w.len() == 0 {
        v
    } else {
        w[0].image(word_image(w.drop_first(), v))
    }
}

/// The largest point that a transposition of `w` moves, or 1 for the empty word.
pub open spec fn word_ord(w: Seq<Swap>) -> u8
    decreases w.len(),
{
    if w.len() == 0 {
        1
    } else {
        let m = word_ord(w.drop_first());
        if w[0].hi() >= m {
            w[0].hi()
        } else {
            m
        }
    }
}

/// The one-line form of the word over `word_ord(w)` points.
pub open spec fn dense(w: Seq<Swap>) -> Seq<u8> {
    Seq::new(word_ord(w) as nat, |i: int| word_image(w, (i + 1) as u8))
}

/// Puts `c` in front of the word `out`: it moves past the transpositions that it
/// commutes with, cancels against an equal one, and stops before one that it meets.
pub open spec fn insert_reduced(c: Swap, out: Seq<Swap>) -> Seq<Swap>
    decreases out.len(),
{
    if out.len() == 0 {
        seq![c]
    } else if c == out[0] {
        out.drop_first()
    } else if c.meets(out[0]) {
        seq![c] + out
    } else {
        seq![out[0]] + insert_reduced(c, out.drop_first())
    }
}

/// The reduced word: the transpositions of `w` are put in, from the last to the first.
pub open spec fn reduce_word(w: Seq<Swap>) -> Seq<Swap>
    decreases w.len(),
{
    if w.len() == 0 {
        w
    } else {
        insert_reduced(w[0], reduce_word(w.drop_first()))
    }
}

/// The transpositions that the points of one cycle give, in order.
pub open spec fn cycle_word(c: Seq<u8>) -> Seq<Swap> {
    if c.len() < 2 {
        Seq::empty()
    } else {
        Seq::new((c.len() - 1) as nat, |k: int| Swap::pair(c[k], c[k + 1]))
    }
}

/// The word of a list of cycles: the words of the cycles, one after the other.
pub open spec fn cycles_word(cs: Seq<Seq<u8>>) -> Seq<Swap>
    decreases cs.len(),
{
    if cs.len() == 0 {
        Seq::empty()
    } else {
        cycles_word(cs.drop_last()) + cycle_word(cs.last())
    }
}

pub open spec fn all_wf(w: Seq<Swap>) -> bool {
    forall|k: int| 0 <= k < w.len() ==> (#[trigger] w[k]).wf()
}

proof fn lemma_word_push(a: Seq<Swap>, s: Swap, v: u8)
    ensures
        word_image(a.push(s), v) == word_image(a, s.image(v)),
    decreases a.len(),
{
    let b = a.push(s);
    if a.len() > 0 {
        assert(b.drop_first() =~= a.drop_first().push(s));
        assert(b[0] == a[0]);
        lemma_word_push(a.drop_first(), s, v);
    } else {
        assert(b.drop_first() =~= a);
        assert(b[0] == s);
        assert(word_image(b.drop_first(), v) == v);
        assert(word_image(a, s.image(v)) == s.image(v));
    }
}

proof fn lemma_word_ord_bounds(w: Seq<Swap>)
    ensures
        word_ord(w) >= 1,
        forall|k: int| 0 <= k < w.len() ==> (#[trigger] w[k]).hi() <= word_ord(w),
    decreases w.len(),
{
    if w.len() > 0 {
        lemma_word_ord_bounds(w.drop_first());
        assert forall|k: int| 0 <= k < w.len() implies (#[trigger] w[k]).hi() <= word_ord(w) by {
            if k > 0 {
                assert(w[k] == w.drop_first()[k - 1]);
            }
        }
    }
}

proof fn lemma_pair_word(w: Seq<Swap>)
    requires
        w.len() == 2,
        all_wf(w),
    ensures
        word_ord(w) == if w[0].hi() >= w[1].hi() { w[0].hi() } else { w[1].hi() },
        forall|v: u8| #[trigger] word_image(w, v) == w[0].image(w[1].image(v)),
{
    let t = w.drop_first();
    let e = t.drop_first();
    assert(e =~= Seq::<Swap>::empty());
    assert(t[0] == w[1]);
    assert(w[1].wf());
    assert(word_ord(e) == 1);
    assert(word_ord(t) == w[1].hi());
    assert forall|v: u8| #[trigger] word_image(w, v) == w[0].image(w[1].image(v)) by {
        assert(word_image(e, v) == v);
        assert(word_image(t, v) == w[1].image(v));
    }
}

/// Points above `word_ord(w)` are fixed by every word of transpositions.
pub proof fn lemma_word_fixed(w: Seq<Swap>, v: u8)
    requires
        all_wf(w),
        v > word_ord(w),
    ensures
        word_image(w, v) == v,
    decreases w.len(),
{
    if w.len() > 0 {
        assert(w[0].wf());
        assert(all_wf(w.drop_first())) by {
            assert forall|k: int| 0 <= k < w.drop_first().len() implies (#[trigger] w.drop_first()[k]).wf() by {
                assert(w.drop_first()[k] == w[k + 1]);
            }
        }
        lemma_word_fixed(w.drop_first(), v);
    }
}

/// The one-line form of a word sends each point where the word does.
pub proof fn lemma_dense_image(w: Seq<Swap>, v: u8)
    requires
        all_wf(w),
        1 <= v,
    ensures
        line_apply(dense(w), v) == word_image(w, v),
{
    if v > word_ord(w) {
        lemma_word_fixed(w, v);
    }
}

/// Putting `c` in front of `out` by `insert_reduced` gives the word of `c ∘ out`.
pub proof fn lemma_insert_meaning(c: Swap, out: Seq<Swap>, v: u8)
    ensures
        word_image(insert_reduced(c, out), v) == c.image(word_image(out, v)),
    decreases out.len(),
{
    if out.len() == 0 {
        assert(seq![c].drop_first() =~= Seq::<Swap>::empty());
        assert(word_image(Seq::<Swap>::empty(), v) == v);
    } else if c == out[0] {
        lemma_swap_self_inverse(c, word_image(out.drop_first(), v));
    } else if c.meets(out[0]) {
        assert((seq![c] + out).drop_first() =~= out);
    } else {
        let rest = out.drop_first();
        let r = seq![out[0]] + insert_reduced(c, rest);
        assert(r.drop_first() =~= insert_reduced(c, rest));
        lemma_insert_meaning(c, rest, v);
        lemma_disjoint_commute(c, out[0], word_image(rest, v));
    }
}

/// Reduction keeps the permutation that a word stands for: every point has the
/// same image under `reduce_word(w)` as under `w`.
pub proof fn lemma_reduce_meaning(w: Seq<Swap>, v: u8)
    ensures
        word_image(reduce_word(w), v) == word_image(w, v),
    decreases w.len(),
{
    if w.len() > 0 {
        lemma_reduce_meaning(w.drop_first(), v);
        lemma_insert_meaning(w[0], reduce_word(w.drop_first()), v);
    }
}

/// Reducing a word does not change its one-line form, for every word whose
/// reduction still moves its largest point. (A word that loses it, such as
/// `(1 5)(1 5)(1 2)`, evaluates to the same mapping over fewer slots.)
pub proof fn lemma_reduce_preserves_evaluation(w: Seq<Swap>)
    requires
        word_ord(reduce_word(w)) == word_ord(w),
    ensures
        dense(reduce_word(w)) == dense(w),
{
    assert forall|i: int| 0 <= i < word_ord(w) implies dense(reduce_word(w))[i] == dense(w)[i] by {
        lemma_reduce_meaning(w, (i + 1) as u8);
    }
    assert(dense(reduce_word(w)) =~= dense(w));
}

/// Each transposition of `u` shares a point with the next one and differs from it.
pub open spec fn chained(u: Seq<Swap>) -> bool {
    forall|k: int| 0 <= k < u.len() - 1 ==> u[k] != u[k + 1] && (#[trigger] u[k]).meets(u[k + 1])
}

/// A chained word is left as it is by reduction.
pub proof fn lemma_reduce_chained(u: Seq<Swap>)
    requires
        chained(u),
    ensures
        reduce_word(u) == u,
    decreases u.len(),
{
    if u.len() > 0 {
        let t = u.drop_first();
        assert(chained(t)) by {
            assert forall|k: int| 0 <= k < t.len() - 1 implies t[k] != t[k + 1] && (#[trigger] t[k]).meets(t[k + 1]) by {
                assert(t[k] == u[k + 1] && t[k + 1] == u[k + 2]);
            }
        }
        lemma_reduce_chained(t);
        if t.len() == 0 {
            assert(u =~= seq![u[0]]);
        } else {
            assert(u[0] != u[1] && u[0].meets(u[1]));
            assert(seq![u[0]] + t =~= u);
        }
    }
}

/// Reducing a second time is a no-op, for every word whose reduction is chained.
/// (Disjoint neighbours trade places on each pass: `(1 2)(3 4)` reduces to
/// `(3 4)(1 2)`, and that back to `(1 2)(3 4)`.)
pub proof fn lemma_reduce_idempotent(w: Seq<Swap>)
    requires
        chained(reduce_word(w)),
    ensures
        reduce_word(reduce_word(w)) == reduce_word(w),
{
    lemma_reduce_chained(reduce_word(w));
}

/// The first transposition of `t` that shares a point with `a` is not `a` itself,
/// so `a` cannot cancel against anything in `t`.
pub open spec fn no_twin_ahead(a: Swap, t: Seq<Swap>) -> bool
    decreases t.len(),
{
    if t.len() == 0 {
        true
    } else if t[0].meets(a) {
        t[0] != a
    } else {
        no_twin_ahead(a, t.drop_first())
    }
}

/// No transposition of `u` can move past the ones it commutes with and cancel
/// against an equal one: the shape of every reduced word.
pub open spec fn cancel_free(u: Seq<Swap>) -> bool
    decreases u.len(),
{
    u.len() == 0 || (no_twin_ahead(u[0], u.drop_first()) && cancel_free(u.drop_first()))
}

proof fn lemma_insert_keeps_no_twin(a: Swap, c: Swap, t: Seq<Swap>)
    requires
        no_twin_ahead(a, t),
        !c.meets(a),
    ensures
        no_twin_ahead(a, insert_reduced(c, t)),
    decreases t.len(),
{
    if t.len() == 0 {
        let r = seq![c];
        assert(r.drop_first() =~= Seq::<Swap>::empty());
        assert(r[0] == c);
        assert(no_twin_ahead(a, r.drop_first()));
        assert(no_twin_ahead(a, r));
    } else if c == t[0] {
        assert(no_twin_ahead(a, t.drop_first()));
    } else if c.meets(t[0]) {
        let r = seq![c] + t;
        assert(r.drop_first() =~= t);
        assert(r[0] == c);
        assert(no_twin_ahead(a, r));
    } else {
        let r = seq![t[0]] + insert_reduced(c, t.drop_first());
        assert(r.drop_first() =~= insert_reduced(c, t.drop_first()));
        assert(r[0] == t[0]);
        if !t[0].meets(a) {
            lemma_insert_keeps_no_twin(a, c, t.drop_first());
        }
        assert(no_twin_ahead(a, r));
    }
}

proof fn lemma_insert_cancel_free(c: Swap, out: Seq<Swap>)
    requires
        cancel_free(out),
    ensures
        cancel_free(insert_reduced(c, out)),
    decreases out.len(),
{
    if out.len() == 0 {
        let r = seq![c];
        assert(r.drop_first() =~= Seq::<Swap>::empty());
        assert(r[0] == c);
        assert(cancel_free(r.drop_first()));
    } else if c == out[0] {
    } else if c.meets(out[0]) {
        let r = seq![c] + out;
        assert(r.drop_first() =~= out);
        assert(r[0] == c);
        assert(out[0].meets(c));
        assert(no_twin_ahead(c, out));
    } else {
        let rest = out.drop_first();
        let r = seq![out[0]] + insert_reduced(c, rest);
        assert(r.drop_first() =~= insert_reduced(c, rest));
        assert(r[0] == out[0]);
        lemma_insert_cancel_free(c, rest);
        lemma_insert_keeps_no_twin(out[0], c, rest);
    }
}

/// Every reduced word is cancel-free.
pub proof fn lemma_reduce_cancel_free(w: Seq<Swap>)
    ensures
        cancel_free(reduce_word(w)),
    decreases w.len(),
{
    if w.len() > 0 {
        lemma_reduce_cancel_free(w.drop_first());
        lemma_insert_cancel_free(w[0], reduce_word(w.drop_first()));
    }
}

proof fn lemma_insert_len_when_no_twin(c: Swap, t: Seq<Swap>)
    requires
        no_twin_ahead(c, t),
    ensures
        insert_reduced(c, t).len() == t.len() + 1,
    decreases t.len(),
{
    if t.len() > 0 && c != t[0] && !c.meets(t[0]) {
        lemma_insert_len_when_no_twin(c, t.drop_first());
    }
}

proof fn lemma_insert_meeting(a: Swap, c: Swap, t: Seq<Swap>)
    requires
        c.meets(a),
        c != a,
        no_twin_ahead(c, t),
    ensures
        no_twin_ahead(a, insert_reduced(c, t)),
    decreases t.len(),
{
    if t.len() == 0 {
        let r = seq![c];
        assert(r[0] == c);
    } else if c == t[0] {
    } else if c.meets(t[0]) {
        let r = seq![c] + t;
        assert(r[0] == c);
    } else {
        let r = seq![t[0]] + insert_reduced(c, t.drop_first());
        assert(r.drop_first() =~= insert_reduced(c, t.drop_first()));
        assert(r[0] == t[0]);
        if !t[0].meets(a) {
            lemma_insert_meeting(a, c, t.drop_first());
        }
    }
}

/// On a cancel-free word, reduction keeps the point that no transposition can
/// cancel against: `no_twin_ahead(a, _)` survives it.
proof fn lemma_reduce_keeps_no_twin(a: Swap, t: Seq<Swap>)
    requires
        cancel_free(t),
        no_twin_ahead(a, t),
    ensures
        no_twin_ahead(a, reduce_word(t)),
    decreases t.len(),
{
    if t.len() > 0 {
        let rest = t.drop_first();
        lemma_reduce_keeps_no_twin(t[0], rest);
        if t[0].meets(a) {
            lemma_insert_meeting(a, t[0], reduce_word(rest));
        } else {
            lemma_reduce_keeps_no_twin(a, rest);
            lemma_insert_keeps_no_twin(a, t[0], reduce_word(rest));
        }
    }
}

/// Reduction cancels nothing in a cancel-free word.
pub proof fn lemma_reduce_cancel_free_len(u: Seq<Swap>)
    requires
        cancel_free(u),
    ensures
        reduce_word(u).len() == u.len(),
    decreases u.len(),
{
    if u.len() > 0 {
        lemma_reduce_cancel_free_len(u.drop_first());
        lemma_reduce_keeps_no_twin(u[0], u.drop_first());
        lemma_insert_len_when_no_twin(u[0], reduce_word(u.drop_first()));
    }
}

/// Reducing an already reduced word cancels nothing: the word keeps its length
/// (and, by `lemma_reduce_meaning`, its meaning).
pub proof fn lemma_reduce_twice_len(w: Seq<Swap>)
    ensures
        reduce_word(reduce_word(w)).len() == reduce_word(w).len(),
{
    lemma_reduce_cancel_free(w);
    lemma_reduce_cancel_free_len(reduce_word(w));
}

/// Reduction never makes a word longer.
pub proof fn lemma_reduce_len(w: Seq<Swap>)
    ensures
        reduce_word(w).len() <= w.len(),
    decreases w.len(),
{
    if w.len() > 0 {
        lemma_reduce_len(w.drop_first());
        lemma_insert_len(w[0], reduce_word(w.drop_first()));
    }
}

proof fn lemma_insert_len(c: Swap, out: Seq<Swap>)
    ensures
        insert_reduced(c, out).len() <= out.len() + 1,
    decreases out.len(),
{
    if out.len() > 0 && c != out[0] && !c.meets(out[0]) {
        lemma_insert_len(c, out.drop_first());
    }
}

/// An ordered sequence of transpositions, read as their composition: the
/// transposition at the tail acts first. Nothing is reduced until `reduce` is called.
#[derive(Debug, PartialEq)]
pub struct SwapSeq(VecDeque<Swap>);

impl View for SwapSeq {
    type V = Seq<Swap>;

    closed spec fn view(&self) -> Seq<Swap> {
        self.0@
    }
}

impl SwapSeq {
    /// What every `SwapSeq` satisfies: each of its transpositions is normalized.
    #[verifier::type_invariant]
    pub open spec fn well_formed(self) -> bool {
        all_wf(self@)
    }

    /// The empty word.
    pub fn new() -> (r: Self)
        ensures
            r@ == Seq::<Swap>::empty(),
    {
        SwapSeq(VecDeque::with_capacity(4))
    }

    /// The word of the given cycles, one after the other: the cycle `(a b c ...)`
    /// gives `(a b)(b c)...`, and a cycle of fewer than two points gives nothing.
    pub fn from_cycle_notation(cycles: Vec<Vec<u8>>) -> (r: Self)
        requires
            forall|i: int, j: int|
                0 <= i < cycles@.len() && cycles@[i]@.len() >= 2 && 0 <= j < cycles@[i]@.len()
                    ==> 1 <= #[trigger] cycles@[i]@[j],
        ensures
            r@ == cycles_word(cycles@.map_values(|c: Vec<u8>| c@)),
    {
        let ghost cs = cycles@.map_values(|c: Vec<u8>| c@);
        let mut out = SwapSeq(VecDeque::with_capacity(8));
        let mut ci: usize = 0;
        proof {
            assert(cs.subrange(0, 0) =~= Seq::<Seq<u8>>::empty());
        }
        while ci < cycles.len()
            invariant
                cs == cycles@.map_values(|c: Vec<u8>| c@),
                ci <= cycles@.len(),
                forall|i: int, j: int|
                    0 <= i < cycles@.len() && cycles@[i]@.len() >= 2 && 0 <= j < cycles@[i]@.len()
                        ==> 1 <= #[trigger] cycles@[i]@[j],
                out@ == cycles_word(cs.subrange(0, ci as int)),
            decreases cycles@.len() - ci,
        {
            let cyc = &cycles[ci];
            let ghost before = out@;
            let ghost c = cyc@;
            let m = cyc.len();
            if m >= 2 {
                let mut last = cyc[0];
                let mut k: usize = 1;
                while k < m
                    invariant
                        c == cyc@,
                        m == c.len(),
                        m >= 2,
                        1 <= k <= m,
                        last == c[k - 1],
                        forall|j: int| 0 <= j < m ==> 1 <= #[trigger] c[j],
                        out@ == before + cycle_word(c).subrange(0, k - 1),
                    decreases m - k,
                {
                    let x = cyc[k];
                    out.compose_right(Swap::new(last, x));
                    proof {
                        assert(cycle_word(c).subrange(0, k as int) =~= cycle_word(c).subrange(0, k - 1).push(
                            Swap::pair(c[k - 1], c[k as int]),
                        ));
                    }
                    last = x;
                    k += 1;
                }
                proof {
                    assert(cycle_word(c).subrange(0, m - 1) =~= cycle_word(c));
                }
            } else {
                proof {
                    assert(out@ =~= before + cycle_word(c));
                }
            }
            proof {
                assert(cs.subrange(0, ci + 1).drop_last() =~= cs.subrange(0, ci as int));
                assert(cs.subrange(0, ci + 1).last() == c);
            }
            ci += 1;
        }
        proof {
            assert(cs.subrange(0, cycles@.len() as int) =~= cs);
        }
        out
    }

    /// Performs `other ∘ self`.
    pub fn compose_left(&mut self, other: Swap)
        ensures
            final(self)@ == seq![other] + old(self)@,
    {
        proof {
            use_type_invariant(&*self);
            use_type_invariant(&other);
        }
        let mut data: VecDeque<Swap> = VecDeque::new();
        std::mem::swap(&mut data, &mut self.0);
        data.push_front(other);
        self.0 = data;
    }

    /// Performs `self ∘ other`.
    pub fn compose_right(&mut self, other: Swap)
        ensures
            final(self)@ == old(self)@.push(other),
    {
        proof {
            use_type_invariant(&*self);
            use_type_invariant(&other);
        }
        let mut data: VecDeque<Swap> = VecDeque::new();
        std::mem::swap(&mut data, &mut self.0);
        data.push_back(other);
        self.0 = data;
    }

    /// Word reduction: the transpositions are taken from the tail to the head, and
    /// each one is put in front of the reduced word built so far (see `insert_reduced`).
    pub fn reduce(&mut self)
        ensures
            final(self)@ == reduce_word(old(self)@),
            final(self)@.len() <= old(self)@.len(),
            cancel_free(final(self)@),
            forall|v: u8| #[trigger] word_image(final(self)@, v) == word_image(old(self)@, v),
    {
        proof {
            use_type_invariant(&*self);
            lemma_reduce_len(self@);
            lemma_reduce_cancel_free(self@);
            assert forall|v: u8| #[trigger] word_image(reduce_word(self@), v) == word_image(self@, v) by {
                lemma_reduce_meaning(self@, v);
            }
        }
        let ghost w = self@;
        let n = self.0.len();
        let mut out: VecDeque<Swap> = VecDeque::new();
        let mut i = n;
        while i > 0
            invariant
                w == self@,
                all_wf(w),
                n == w.len(),
                i <= n,
                all_wf(out@),
                out@ == reduce_word(w.subrange(i as int, n as int)),
            decreases i,
        {
            i -= 1;
            let curr = self.0[i];
            proof {
                assert(w.subrange(i as int, n as int).drop_first() =~= w.subrange(i + 1, n as int));
                assert(w.subrange(i as int, n as int)[0] == curr);
                assert(w[i as int].wf());
            }
            insert_into(&mut out, curr);
        }
        proof {
            assert(w.subrange(0, n as int) =~= w);
        }
        self.0 = out;
    }

    /// The one-line form of the word.
    pub fn evaluate(&self) -> (r: OneLine)
        ensures
            r@ == dense(self@),
    {
        proof {
            use_type_invariant(self);
        }
        let ghost w = self@;
        let n = self.0.len();
        if n == 0 {
            let r = OneLine::identity(1);
            proof {
                assert(r@ =~= dense(w));
            }
            r
        } else if n == 1 {
            let s = self.0[0];
            let mut out = OneLine::identity(s.order());
            out.compose_swap_right(&s);
            proof {
                let e = w.drop_first();
                assert(e =~= Seq::<Swap>::empty());
                assert(w[0].wf());
                assert(word_ord(e) == 1);
                assert(word_ord(w) == s.hi());
                assert forall|v: u8| word_image(w, v) == s.image(v) by {
                    assert(word_image(e, v) == v);
                }
                assert(out@ =~= dense(w));
            }
            out
        } else if n == 2 {
            let r = OneLine::from_involutions(&self.0[0], &self.0[1]);
            proof {
                lemma_pair_word(w);
                assert(r@ =~= dense(w));
            }
            r
        } else {
            let ord = self.order();
            proof {
                lemma_word_ord_bounds(w);
            }
            let mut perm = OneLine::identity(ord);
            let mut i: usize = 0;
            while i < n
                invariant
                    w == self@,
                    n == w.len(),
                    all_wf(w),
                    ord == word_ord(w),
                    ord >= 1,
                    forall|k: int| 0 <= k < w.len() ==> (#[trigger] w[k]).hi() <= ord,
                    i <= n,
                    perm@.len() == ord,
                    forall|k: int| 0 <= k < ord ==> perm@[k] == word_image(w.subrange(0, i as int), (k + 1) as u8),
                decreases n - i,
            {
                let s = self.0[i];
                perm.compose_swap_right(&s);
                proof {
                    assert(s.wf());
                    assert(w.subrange(0, i + 1) =~= w.subrange(0, i as int).push(s));
                    assert forall|k: int| 0 <= k < ord implies perm@[k] == word_image(w.subrange(0, i + 1), (k + 1) as u8) by {
                        lemma_word_push(w.subrange(0, i as int), s, (k + 1) as u8);
                    }
                }
                i += 1;
            }
            proof {
                assert(w.subrange(0, n as int) =~= w);
                assert(perm@ =~= dense(w));
            }
            perm
        }
    }
}

/// Performs `insert_reduced(c, out)` on a deque.
fn insert_into(out: &mut VecDeque<Swap>, c: Swap)
    requires
        all_wf(old(out)@),
        c.wf(),
    ensures
        final(out)@ == insert_reduced(c, old(out)@),
        all_wf(final(out)@),
{
    let ghost o = out@;
    let n = out.len();
    let mut j: usize = 0;
    proof {
        assert(o.subrange(0, n as int) =~= o);
        assert(o.subrange(0, 0) + o =~= o);
    }
    while j < n
        invariant
            out@ == o,
            n == o.len(),
            j <= n,
            insert_reduced(c, o) == o.subrange(0, j as int) + insert_reduced(c, o.subrange(j as int, n as int)),
        ensures
            out@ == o,
            j <= n,
            insert_reduced(c, o) == o.subrange(0, j as int) + insert_reduced(c, o.subrange(j as int, n as int)),
            j == n || c.meets(o[j as int]),
        decreases n - j,
    {
        let item = out[j];
        if c.overlaps(&item) {
            break;
        }
        let ghost t = o.subrange(j as int, n as int);
        proof {
            assert(t[0] == item);
            assert(t.drop_first() =~= o.subrange(j + 1, n as int));
            assert(insert_reduced(c, t) == seq![item] + insert_reduced(c, t.drop_first()));
            assert(o.subrange(0, j + 1) + insert_reduced(c, o.subrange(j + 1, n as int)) =~= o.subrange(0, j as int)
                + (seq![item] + insert_reduced(c, o.subrange(j + 1, n as int))));
        }
        j += 1;
    }
    let ghost t = o.subrange(j as int, n as int);
    if j == n {
        out.push_back(c);
        proof {
            assert(t =~= Seq::<Swap>::empty());
            assert(o.subrange(0, n as int) =~= o);
            assert(out@ =~= o + seq![c]);
        }
    } else if c == out[j] {
        out.remove(j);
        proof {
            assert(t.drop_first() =~= o.subrange(j + 1, n as int));
            assert(insert_reduced(c, t) == t.drop_first());
            assert(o.remove(j as int) =~= o.subrange(0, j as int) + o.subrange(j + 1, n as int));
            assert forall|k: int| 0 <= k < out@.len() implies (#[trigger] out@[k]).wf() by {
                if k >= j {
                    assert(out@[k] == o[k + 1]);
                } else {
                    assert(out@[k] == o[k]);
                }
            }
        }
    } else {
        out.insert(j, c);
        proof {
            assert(t[0] == o[j as int]);
            assert(insert_reduced(c, t) == seq![c] + t);
            assert(o.insert(j as int, c) =~= o.subrange(0, j as int) + (seq![c] + t));
            assert forall|k: int| 0 <= k < out@.len() implies (#[trigger] out@[k]).wf() by {
                if k > j {
                    assert(out@[k] == o[k - 1]);
                } else if k < j {
                    assert(out@[k] == o[k]);
                }
            }
        }
    }
}

impl std::ops::Mul<Swap> for SwapSeq {
    type Output = SwapSeq;

    /// `self ∘ rhs`.
    fn mul(self, rhs: Swap) -> (r: SwapSeq)
        ensures
            r@ == self@.push(rhs),
    {
        let mut out = self;
        out.compose_right(rhs);
        out
    }
}

impl std::ops::Mul<SwapSeq> for Swap {
    type Output = SwapSeq;

    /// `self ∘ rhs`.
    fn mul(self, rhs: SwapSeq) -> (r: SwapSeq)
        ensures
            r@ == seq![self] + rhs@,
    {
        let mut out = rhs;
        out.compose_left(self);
        out
    }
}

impl vstd::std_specs::ops::MulSpecImpl<Swap> for SwapSeq {
    /// The product is described by `compose_right`, not by a spec function.
    open spec fn obeys_mul_spec() -> bool {
        false
    }

    open spec fn mul_req(self, rhs: Swap) -> bool {
        true
    }

    open spec fn mul_spec(self, rhs: Swap) -> SwapSeq {
        arbitrary()
    }
}

impl vstd::std_specs::ops::MulSpecImpl<SwapSeq> for Swap {
    /// The product is described by `compose_left`, not by a spec function.
    open spec fn obeys_mul_spec() -> bool {
        false
    }

    open spec fn mul_req(self, rhs: SwapSeq) -> bool {
        true
    }

    open spec fn mul_spec(self, rhs: SwapSeq) -> SwapSeq {
        arbitrary()
    }
}

impl std::ops::MulAssign<Swap> for SwapSeq {
    /// `self = self ∘ rhs`.
    fn mul_assign(&mut self, rhs: Swap)
        ensures
            final(self)@ == old(self)@.push(rhs),
    {
        self.compose_right(rhs);
    }
}

impl Clone for SwapSeq {
    fn clone(&self) -> (r: Self)
        ensures
            r@ == self@,
    {
        proof {
            use_type_invariant(self);
        }
        let n = self.0.len();
        let mut data: VecDeque<Swap> = VecDeque::with_capacity(n);
        let mut i: usize = 0;
        while i < n
            invariant
                n == self@.len(),
                all_wf(self@),
                i <= n,
                data@ == self@.subrange(0, i as int),
            decreases n - i,
        {
            data.push_back(self.0[i]);
            i += 1;
            proof {
                assert(data@ =~= self@.subrange(0, i as int));
            }
        }
        proof {
            assert(data@ =~= self@);
        }
        SwapSeq(data)
    }
}

impl Mapping for SwapSeq {
    open spec fn image(&self, v: u8) -> u8 {
        word_image(self@, v)
    }

    open spec fn ord(&self) -> u8 {
        word_ord(self@)
    }

    fn apply(&self, v: u8) -> (r: u8) {
        let n = self.0.len();
        let mut x = v;
        let mut i = n;
        while i > 0
            invariant
                n == self@.len(),
                i <= n,
                x == word_image(self@.subrange(i as int, n as int), v),
            decreases i,
        {
            i -= 1;
            x = self.0[i].apply(x);
            proof {
                assert(self@.subrange(i as int, n as int).drop_first() =~= self@.subrange(i + 1, n as int));
            }
        }
        proof {
            assert(self@.subrange(0, n as int) =~= self@);
        }
        x
    }

    fn order(&self) -> (r: u8) {
        proof {
            use_type_invariant(self);
        }
        let n = self.0.len();
        let mut m: u8 = 1;
        let mut i = n;
        while i > 0
            invariant
                n == self@.len(),
                i <= n,
                m == word_ord(self@.subrange(i as int, n as int)),
            decreases i,
        {
            i -= 1;
            let h = self.0[i].high();
            proof {
                assert(self@.subrange(i as int, n as int).drop_first() =~= self@.subrange(i + 1, n as int));
            }
            if h >= m {
                m = h;
            }
        }
        proof {
            assert(self@.subrange(0, n as int) =~= self@);
            assert forall|v: u8| v > m implies #[trigger] word_image(self@, v) == v by {
                lemma_word_fixed(self@, v);
            }
        }
        m
    }
}

impl Identity for SwapSeq {
    open spec fn supports(ord: u8) -> bool {
        true
    }

    /// Every point of `1..=order` is fixed by the word.
    open spec fn is_id(&self) -> bool {
        forall|v: u8| 1 <= v <= word_ord(self@) ==> #[trigger] word_image(self@, v) == v
    }

    /// The empty word; the size is not needed.
    fn identity(_ord: u8) -> (r: Self) {
        let r = Self::new();
        proof {
            assert forall|v: u8| #[trigger] word_image(r@, v) == v by {}
        }
        r
    }

    /// O(n) in the order, once the word is evaluated.
    fn is_identity(&self) -> (r: bool) {
        proof {
            use_type_invariant(self);
        }
        let line = self.evaluate();
        let r = line.is_identity();
        proof {
            let d = dense(self@);
            assert(line@ == d);
            if r {
                assert forall|v: u8| 1 <= v <= word_ord(self@) implies #[trigger] word_image(self@, v) == v by {
                    assert(d[v - 1] == identity_line(d.len())[v - 1]);
                }
            } else if self.is_id() {
                assert forall|i: int| 0 <= i < d.len() implies d[i] == identity_line(d.len())[i] by {
                    assert(word_image(self@, (i + 1) as u8) == (i + 1) as u8);
                }
                assert(d =~= identity_line(d.len()));
            }
        }
        r
    }
}

impl FromInvolutions for SwapSeq {
    open spec fn admits(left: Swap, right: Swap) -> bool {
        true
    }

    fn from_involutions(left: &Swap, right: &Swap) -> (r: Self)
        ensures
            r@ == seq![*left, *right],
    {
        let mut r = Self::new();
        r.compose_right(*left);
        r.compose_right(*right);
        proof {
            use_type_invariant(&r);
            assert(r@ =~= seq![*left, *right]);
            lemma_pair_word(r@);
        }
        r
    }
}

} // verus!
