//! Persistent vectors of value ids, as provided by the `im` crate.

use im::Vector;
use vstd::prelude::*;

verus! {

#[verifier::external_type_specification]
#[verifier::external_body]
#[verifier::reject_recursive_types(A)]
pub struct ExVector<A>(Vector<A>);

/// The ids that a vector holds, first to last.
pub uninterp spec fn vector_items(v: Vector<usize>) -> Seq<usize>;

/// `im::Vector::new`: an empty vector.
#[verifier::external_body]
pub(crate) fn vector_new() -> (v: Vector<usize>)
    ensures
        vector_items(v) == Seq::<usize>::empty(),
{
    Vector::new()
}

/// `im::Vector::push_back`: the value is appended behind the last element and
/// nothing else changes.
#[verifier::external_body]
pub(crate) fn vector_push_back(v: &mut Vector<usize>, value: usize)
    ensures
        vector_items(*final(v)) == vector_items(*old(v)).push(value),
{
    v.push_back(value)
}

/// `im::Vector::len`: the number of elements.
#[verifier::external_body]
pub(crate) fn vector_len(v: &Vector<usize>) -> (n: usize)
    ensures
        n == vector_items(*v).len(),
{
    v.len()
}

/// `im::Vector::get`: the element at `index`, or nothing where `index` is
/// behind the last element.
#[verifier::external_body]
pub(crate) fn vector_get(v: &Vector<usize>, index: usize) -> (value: Option<usize>)
    ensures
        value == if index < vector_items(*v).len() {
            Some(vector_items(*v)[index as int])
        } else {
            None
        },
{
    v.get(index).copied()
}

/// `Clone` of `im::Vector`: a vector with the same elements.
#[verifier::external_body]
pub(crate) fn vector_clone(v: &Vector<usize>) -> (copy: Vector<usize>)
    ensures
        vector_items(copy) == vector_items(*v),
{
    v.clone()
}

} // verus!
