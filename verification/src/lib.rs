//! A vector that rotates in constant time.
//!
//! The elements stay where they are in memory; a rotation only moves the
//! offset at which the logical sequence begins.

pub mod conversions;
pub mod debug;
pub mod indexing;
pub mod laws;
pub mod model;
pub mod vec_rotate;

pub use crate::vec_rotate::VecRotate;
