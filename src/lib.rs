//! Two-way maps between the values of a finite type and the integers
//! `0..size` ("ordinals"), and maps and sets that use those integers as
//! indices instead of hashes.

pub mod array;
pub mod bits;
pub mod composite;
pub mod compound;
pub mod map;
pub mod ordinal;
pub mod primitive;
pub mod set;
pub mod values;

pub use ordinal::Ordinal;
pub use values::{all_values, OrdinalValues};
