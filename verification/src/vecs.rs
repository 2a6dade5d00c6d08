use vstd::prelude::*;

verus! {

#[verifier::external_type_specification]
#[verifier::external_body]
#[verifier::reject_recursive_types(T)]
pub struct ExIterMut<'a, T: 'a>(core::slice::IterMut<'a, T>);

/// A mutable iterator over a slice.
///
/// Trusted: calls `<[T]>::iter_mut`. Nothing is claimed of the iterator; of the slice,
/// only that it keeps its length, as every slice does.
#[verifier::external_body]
pub fn slice_iter_mut<'a, T>(s: &'a mut [T]) -> (r: core::slice::IterMut<'a, T>)
    ensures
        final(s)@.len() == old(s)@.len(),
{
    s.iter_mut()
}

/// The capacity of a vector.
///
/// Trusted: calls `Vec::capacity`; its documentation guarantees that the capacity is
/// never below the length, and that is all that is claimed.
#[verifier::external_body]
pub fn vec_capacity<T>(v: &Vec<T>) -> (r: usize)
    ensures
        r >= v@.len(),
{
    v.capacity()
}

/// Replaces the element at `i` with `value`, returning the element that was there.
pub fn vec_replace<T>(v: &mut Vec<T>, i: usize, value: T) -> (r: T)
    requires
        i < old(v)@.len(),
    ensures
        r == old(v)@[i as int],
        final(v)@ == old(v)@.update(i as int, value),
{
    v.push(value);
    let r = v.swap_remove(i);
    assert(final(v)@ =~= old(v)@.update(i as int, value));
    r
}

} // verus!
