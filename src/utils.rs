use vstd::prelude::*;

verus! {

/// Relies on `Vec::into_boxed_slice`: the boxed slice holds the vector's elements.
#[verifier::external_body]
fn into_boxed(v: Vec<u8>) -> (r: Box<[u8]>)
    ensures
        r@ == v@,
{
    v.into_boxed_slice()
}

/// An empty boxed slice; `size` is the capacity asked of the allocator.
pub fn new_boxed_slice(size: usize) -> (r: Box<[u8]>)
    ensures
        r@.len() == 0,
{
    into_boxed(Vec::with_capacity(size))
}

} // verus!
