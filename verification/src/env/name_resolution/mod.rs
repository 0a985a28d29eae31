//! Records what every name of a program stands for.
pub mod resolution;
pub mod resolve_helper;
pub mod resolved;
pub mod type_checking;
pub mod type_linker;

use crate::ast::ScopeId;
use crate::env::declaration_resolution::declaration_operations::{collected, UnresolvedNames};
use crate::env::environment::Environment;
use crate::env::error::EnvError;
use crate::env::name_resolution::resolution::{declared_where_used, NameResolver};
use crate::env::name_resolution::type_linker::{
    declared_type_where_used, is_primitive_type_name, is_primitive_type_path, TypeLinker,
};
use crate::names::TableKey;
use vstd::prelude::*;

verus! {

/// Every name is recorded in the environment with what it stands for: each name used as a
/// value, and each name of a type but those of primitive types. Names are given by their
/// keys, names of types first.
pub open spec fn names_recorded(
    env: &Environment,
    names: (Seq<(Seq<Seq<u8>>, ScopeId)>, Seq<(Seq<Seq<u8>>, ScopeId)>),
) -> bool {
    &&& forall|i: int| 0 <= i < names.1.len() ==> (#[trigger] env.resolved_names.get_spec(names.1[i])) is Some
    &&& forall|i: int|
        0 <= i < names.0.len() ==> is_primitive_type_path((#[trigger] names.0[i]).0)
            || env.resolved_names.get_spec(names.0[i]) is Some
}

/// Links the type names to their structs and traits, then resolves the names used as
/// values.
pub fn resolve(environment: &mut Environment, unresolved_names: UnresolvedNames) -> (res: Result<(), EnvError>)
    requires
        old(environment).wf(),
    ensures
        final(environment).scopes == old(environment).scopes,
        res is Ok ==> forall|i: int|
            0 <= i < unresolved_names.type_names@.len() ==> is_primitive_type_name(
                #[trigger] unresolved_names.type_names@[i],
            ) || final(environment).resolved_names.get_spec(unresolved_names.type_names@[i].spec_key()) is Some,
        res is Ok ==> forall|i: int|
            0 <= i < unresolved_names.expression_names@.len() ==> final(environment).resolved_names.get_spec(
                #[trigger] unresolved_names.expression_names@[i].spec_key(),
            ) is Some,
        res is Ok ==> names_recorded(final(environment), collected(&unresolved_names)),
        (forall|i: int|
            0 <= i < unresolved_names.type_names@.len() ==> declared_type_where_used(
                old(environment),
                #[trigger] unresolved_names.type_names@[i],
            )) && (forall|i: int|
            0 <= i < unresolved_names.expression_names@.len() ==> declared_where_used(
                old(environment),
                #[trigger] unresolved_names.expression_names@[i],
            )) ==> res is Ok,
{
    let ghost keys = collected(&unresolved_names);
    let UnresolvedNames { type_names, expression_names } = unresolved_names;
    TypeLinker::link_types(environment, &type_names)?;
    assert(forall|i: int|
        0 <= i < expression_names@.len() && declared_where_used(old(environment), #[trigger] expression_names@[i])
            ==> declared_where_used(environment, expression_names@[i]));
    NameResolver::resolve_names(environment, &expression_names)?;
    proof {
        assert forall|i: int| 0 <= i < type_names@.len() implies is_primitive_type_name(#[trigger] type_names@[i])
            || environment.resolved_names.get_spec(type_names@[i].spec_key()) is Some by {
        }
        assert forall|i: int| 0 <= i < keys.1.len() implies (#[trigger] environment.resolved_names.get_spec(keys.1[i])) is Some by {
            assert(keys.1[i] == expression_names@[i].spec_key());
        }
        assert forall|i: int| 0 <= i < keys.0.len() implies is_primitive_type_path((#[trigger] keys.0[i]).0)
            || environment.resolved_names.get_spec(keys.0[i]) is Some by {
            assert(keys.0[i] == type_names@[i].spec_key());
            assert(is_primitive_type_name(type_names@[i]) || environment.resolved_names.get_spec(type_names@[i].spec_key()) is Some);
        }
    }
    Ok(())
}

} // verus!
