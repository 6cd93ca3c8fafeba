//! An ordered map kept in a chain of small, fixed-capacity sorted segments.
//!
//! [`SlabMap`] is the map. The modules `segment` and `chain` hold the
//! mathematical model that its contracts are stated over, and `order` says
//! what is asked of the keys.

pub mod chain;
pub mod laws;
pub mod order;
pub mod segment;
pub mod slab;

pub use slab::{Iter, Record, SlabMap};
