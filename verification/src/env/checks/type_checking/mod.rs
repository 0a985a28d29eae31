pub mod error;
pub mod essential_trait;
pub mod render_impl_checker;
pub mod type_resolver;
pub mod types;
pub mod assignable_checker;
