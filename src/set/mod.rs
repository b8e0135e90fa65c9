//! Sets of ordinal values: one membership bit per possible value.

pub mod array;
pub mod iter;
pub mod set64;
pub mod set;

pub use array::{ordinal_array_set_s, OrdinalArraySet};
pub use iter::Iter;
pub use set::OrdinalSet;
pub use set64::{Iter64, OrdinalSet64};
