//! Resolves the names used as values.
use crate::ast::Name;
use crate::env::environment::Environment;
use crate::env::error::EnvError;
use crate::env::name_resolution::resolve_helper::{
    follow_path, found_in_some_scope, found_nowhere, found_twice, lexically_declared, ResolveHelper,
};
use crate::env::name_resolution::resolved::{Resolved, SpecResolved};
use crate::names::{copy_bytes, TableKey};
use vstd::prelude::*;

verus! {

/// Whether the name is a single identifier that its own scope declares.
pub open spec fn declared_where_used(env: &Environment, name: Name) -> bool {
    &&& name.moniker@.len() == 1
    &&& name.scope < env.scopes@.len()
    &&& env.scopes@[name.scope as int].name_spaces.declared.get_spec(name.path()[0]) is Some
}

/// Resolves names used as values.
pub struct NameResolver;

impl NameResolver {
    /// Records what every name stands for: a simple name as found from its scope, any other
    /// name, or a simple name found nowhere, by following its components.
    pub fn resolve_names(env: &mut Environment, names: &Vec<Name>) -> (res: Result<(), EnvError>)
        requires
            old(env).wf(),
        ensures
            final(env).scopes == old(env).scopes,
            forall|k: (Seq<Seq<u8>>, usize)|
                old(env).resolved_names.get_spec(k) is Some ==> #[trigger] final(env).resolved_names.get_spec(k) is Some,
            res is Ok ==> forall|i: int|
                0 <= i < names@.len() ==> final(env).resolved_names.get_spec(#[trigger] names@[i].spec_key()) is Some,
            (forall|i: int| 0 <= i < names@.len() ==> declared_where_used(old(env), #[trigger] names@[i])) ==> res is Ok,
    {
        let mut i: usize = 0;
        while i < names.len()
            invariant
                env.wf(),
                env.scopes == old(env).scopes,
                i <= names@.len(),
                forall|k: (Seq<Seq<u8>>, usize)|
                    old(env).resolved_names.get_spec(k) is Some ==> #[trigger] env.resolved_names.get_spec(k) is Some,
                forall|j: int| 0 <= j < i ==> env.resolved_names.get_spec(#[trigger] names@[j].spec_key()) is Some,
            decreases names@.len() - i,
        {
            let name = &names[i];
            proof {
                if forall|j: int| 0 <= j < names@.len() ==> declared_where_used(old(env), #[trigger] names@[j]) {
                    assert(declared_where_used(old(env), names@[i as int]));
                    assert(name.path()[0] == name.moniker@[0]@);
                }
            }
            let resolved = match Self::resolve_added_name(env, name)? {
                Some(r) => r,
                None => Self::disambiguate_name(env, name)?,
            };
            env.resolved_names.insert(name.duplicate(), resolved);
            i = i + 1;
        }
        Ok(())
    }

    /// What a simple name stands for, found from its scope.
    fn resolve_added_name(env: &Environment, name: &Name) -> (res: Result<Option<Resolved>, EnvError>)
        requires
            env.wf(),
        ensures
            name.moniker@.len() != 1 ==> res == Ok::<Option<Resolved>, EnvError>(None),
            name.moniker@.len() == 1 && name.scope >= env.scopes@.len() ==> res == Err::<Option<Resolved>, EnvError>(
                EnvError::InvalidState,
            ),
            name.moniker@.len() == 1 && name.scope < env.scopes@.len() ==> ({
                let n = name.moniker@[0]@;
                &&& env.scopes@[name.scope as int].name_spaces.declared.get_spec(n) matches Some(d) ==> (res matches Ok(
                    Some(r),
                ) && r.spec() == SpecResolved::from_declared(d))
                &&& lexically_declared(env.scopes@, name.scope, n) matches Some(d) ==> (res matches Ok(Some(r)) && r.spec()
                    == SpecResolved::from_declared(d))
                &&& res matches Ok(Some(r)) ==> found_in_some_scope(env.scopes@, n, r.spec())
                &&& res == Ok::<Option<Resolved>, EnvError>(None) ==> found_nowhere(env.scopes@, name.scope, n)
                &&& res matches Err(e) ==> (e matches EnvError::AmbiguousName(a) && a@ == n && found_twice(env.scopes@, n))
            }),
    {
        if name.moniker.len() == 1 {
            if name.scope >= env.scopes.len() {
                return Err(EnvError::InvalidState);
            }
            ResolveHelper::resolve(env, name.scope, name.moniker[0].as_slice())
        } else {
            Ok(None)
        }
    }

    fn disambiguate_name(env: &Environment, name: &Name) -> (res: Result<Resolved, EnvError>)
        requires
            env.wf(),
        ensures
            res matches Ok(Resolved::Module(m)) ==> m < env.scopes@.len(),
            name.moniker@.len() == 0 ==> res is Err,
            res matches Ok(r) ==> exists|first: SpecResolved| follow_path(env.scopes@, first, name.path(), 1) == Some(r.spec()),
            name.moniker@.len() > 0 && name.scope < env.scopes@.len() ==> match env.scopes@[name.scope as int].name_spaces.declared.get_spec(
                name.path()[0],
            ) {
                Some(d) => match follow_path(env.scopes@, SpecResolved::from_declared(d), name.path(), 1) {
                    Some(r) => res matches Ok(x) && x.spec() == r,
                    None => res is Err,
                },
                None => true,
            },
    {
        ResolveHelper::disambiguate(env, name)
    }
}

} // verus!
