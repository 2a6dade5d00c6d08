use vstd::prelude::*;

verus! {

/// Resets an object before it goes back into a pool, keeping whatever capacity it can.
pub trait Recycler<T> {
    /// Resets `item` to its clean state.
    fn recycle(&self, item: &mut T);
}

/// A recycler that leaves objects as they are.
#[derive(Clone, Copy, Debug, Default)]
pub struct NoOpRecycler;

impl<T> Recycler<T> for NoOpRecycler {
    /// Leaves the item unchanged.
    fn recycle(&self, item: &mut T)
        ensures
            *final(item) == *old(item),
    {
    }
}

/// A recycler that replaces objects by their default value.
#[derive(Clone, Copy, Debug, Default)]
pub struct DefaultRecycler;

impl<T: Default> Recycler<T> for DefaultRecycler {
    /// Replaces the item by `T::default()`.
    fn recycle(&self, item: &mut T)
        ensures
            call_ensures(T::default, (), *final(item)),
    {
        *item = T::default();
    }
}

} // verus!
