pub mod object;
pub mod slab;

pub use object::{DefaultRecycler, NoOpRecycler, Recycler};
pub use slab::Slab;
