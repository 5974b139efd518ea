use vstd::prelude::*;

verus! {

/// A permutation of the points `1..=n`, seen through its action on single points.
///
/// Points above `order()` are fixed, and so are the points `apply` is not meant for.
pub trait Mapping {
    /// The image of point `v`.
    spec fn image(&self, v: u8) -> u8;

    /// The least `n` such that every point above `n` is fixed.
    spec fn ord(&self) -> u8;

    /// `v` is meant to lie in `1..=self.order()`; any other point comes back unchanged.
    fn apply(&self, v: u8) -> (r: u8)
        ensures
            r == self.image(v),
    ;

    /// The `n` in S_n.
    fn order(&self) -> (r: u8)
        ensures
            r == self.ord(),
            forall|v: u8| v > r ==> #[trigger] self.image(v) == v,
    ;
}

/// Composition `self ∘ right`, producing a mapping of representation `R`.
pub trait Composable<R: Mapping>: Mapping + Sized {
    /// Composes self on the left of `right`: the result sends `v` to `self(right(v))`.
    fn compose(&self, right: &Self) -> (r: R)
        ensures
            forall|v: u8| 1 <= v ==> #[trigger] r.image(v) == self.image(right.image(v)),
    ;
}

/// Group inverse.
pub trait Invertible {
    fn inverse(&self) -> &Self;
}

/// The identity element of a representation.
pub trait Identity: Mapping + Sized {
    /// Whether the value is the representation's identity form.
    spec fn is_id(&self) -> bool;

    /// Whether the representation has an identity sized for `ord` points.
    spec fn supports(ord: u8) -> bool;

    /// The identity, sized for `ord` points where the representation has a size.
    fn identity(ord: u8) -> (r: Self)
        requires
            Self::supports(ord),
        ensures
            r.is_id(),
            forall|v: u8| #[trigger] r.image(v) == v,
    ;

    fn is_identity(&self) -> (r: bool)
        ensures
            r == self.is_id(),
    ;
}

} // verus!
