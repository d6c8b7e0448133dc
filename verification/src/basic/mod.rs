pub mod error_bitmask;
pub mod basic;
pub mod all_about_trait;
