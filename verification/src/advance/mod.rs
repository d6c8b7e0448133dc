pub mod blanket_impl;
pub mod serialize_deserialize;
