//! Turbo: verified building blocks for byte buffers, generational collections,
//! Robin Hood hash tables, slabs and compact strings.

pub mod allocator;
pub mod bytes;
pub mod collections;
pub mod error;
pub mod hash;
pub mod info;
pub mod lemmas;
pub mod pool;
pub mod string;
pub mod traits;
pub mod vecs;

pub use allocator::TurboAlloc;
pub use error::{Error, Result};
pub use info::{active_features, msrv, version};
pub use traits::{EstimateSize, ZeroCopy};
