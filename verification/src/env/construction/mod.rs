pub mod module_operations;
pub mod scope_operations;
pub mod subdivide_struct_init;
