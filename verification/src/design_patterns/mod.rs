pub mod avoid_complex_type_bound;
pub mod command;
pub mod fold;
pub mod raii_resource_guard;
