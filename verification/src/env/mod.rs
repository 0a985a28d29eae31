pub mod checks;
pub mod construction;
pub mod declaration_resolution;
pub mod env_builder;
pub mod environment;
pub mod error;
pub mod module_verifier;
pub mod name_resolution;
pub mod scope;
