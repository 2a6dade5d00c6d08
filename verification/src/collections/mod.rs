pub mod arena;
pub mod dense;
pub mod index;

pub use arena::Arena;
pub use dense::DenseMap;
pub use index::Index;
