//! Finds the traits of `std.essential`.
use crate::env::checks::type_checking::types::Types;
use crate::env::environment::{module_at, Environment};
use crate::env::error::EnvError;
use crate::env::module_verifier::{std_essential, std_essential_path};
use crate::env::scope::DeclaredElement;
use crate::ast::GLOBAL_SCOPE;
use crate::names::copy_bytes;
use vstd::prelude::*;

verus! {

/// What the name stands for in `std.essential`, as a trait type; an error where it stands
/// for something else.
pub open spec fn spec_essential_trait(env: &Environment, name: Seq<u8>) -> Result<Option<Types>, ()> {
    match module_at(env.scopes@, GLOBAL_SCOPE, std_essential()) {
        Some(s) => if s < env.scopes@.len() {
            match env.scopes@[s as int].name_spaces.declared.get_spec(name) {
                Some(DeclaredElement::Trait(t)) => Ok(Some(Types::Trait(t))),
                Some(_) => Err(()),
                None => Ok(None),
            }
        } else {
            Ok(None)
        },
        None => Ok(None),
    }
}

/// What `std.essential.Render` stands for, as a trait type.
pub open spec fn spec_render(env: &Environment) -> Result<Option<Types>, ()> {
    spec_essential_trait(env, seq![82u8, 101, 110, 100, 101, 114])
}

/// The trait `std.essential.Render`, if the program declares it.
pub fn render(environment: &Environment) -> (r: Result<Option<Types>, EnvError>)
    requires
        environment.wf(),
    ensures
        match spec_render(environment) {
            Ok(t) => r == Ok::<Option<Types>, EnvError>(t),
            Err(_) => r is Err,
        },
{
    let name: Vec<u8> = vec![82u8, 101, 110, 100, 101, 114];
    assert(name@ =~= seq![82u8, 101, 110, 100, 101, 114]);
    essential_trait(environment, &name)
}

/// The trait that the name stands for in `std.essential`, if any.
pub fn essential_trait(environment: &Environment, name: &Vec<u8>) -> (r: Result<Option<Types>, EnvError>)
    requires
        environment.wf(),
    ensures
        match spec_essential_trait(environment, name@) {
            Ok(t) => r == Ok::<Option<Types>, EnvError>(t),
            Err(_) => r is Err,
        },
{
    let scope_id = match environment.find_module(std_essential_path().as_slice()) {
        Some(s) => s,
        None => {
            return Ok(None);
        },
    };
    match environment.get_scope(scope_id).name_spaces.declared.get(name) {
        Some(DeclaredElement::Trait(t)) => Ok(Some(Types::Trait(*t))),
        Some(_) => Err(EnvError::NotAType(copy_bytes(name.as_slice()))),
        None => Ok(None),
    }
}

} // verus!
