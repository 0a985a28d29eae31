pub mod struct_init_checker;
pub mod type_checker;
pub mod type_conform_checker;
