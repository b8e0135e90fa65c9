//! Maps keyed by ordinal types, indexed by the key's number instead of a hash.

pub mod array_map;
pub mod entry;
pub mod map;
pub mod total_array_map;
pub mod total_map;

pub use array_map::OrdinalArrayMap;
pub use entry::{Entry, OccupiedEntry, VacantEntry};
pub use map::OrdinalMap;
pub use total_array_map::OrdinalTotalArrayMap;
pub use total_map::OrdinalTotalMap;
