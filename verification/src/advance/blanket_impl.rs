//! The cached value of [`ValueV1`], whose getter and rating function are given as
//! closures.
pub use crate::design_patterns::avoid_complex_type_bound::{GetterError, Status, ValueV1};
