pub mod hasher;
pub mod map;
pub mod set;

pub use hasher::{BuildFxHasher, FxHasher};
pub use map::{Entry, HashMap, OccupiedEntry, VacantEntry};
pub use set::HashSet;
