//! Links the names of types to the structs and traits they name.
use crate::ast::Name;
use crate::env::environment::Environment;
use crate::env::error::EnvError;
use crate::env::name_resolution::resolve_helper::{follow_path, ResolveHelper};
use crate::env::name_resolution::resolved::{Resolved, SpecResolved};
use crate::names::{bytes_eq, join_path, TableKey};
use vstd::prelude::*;

verus! {

/// The words that name primitive types: `Int`, `Float`, `String`, `Bool`, `Void` and `()`.
pub open spec fn is_primitive_name(w: Seq<u8>) -> bool {
    ||| w == seq![73u8, 110, 116]
    ||| w == seq![70u8, 108, 111, 97, 116]
    ||| w == seq![83u8, 116, 114, 105, 110, 103]
    ||| w == seq![66u8, 111, 111, 108]
    ||| w == seq![86u8, 111, 105, 100]
    ||| w == seq![40u8, 41]
}

/// Whether the word names a primitive type.
pub fn primitive_name(w: &[u8]) -> (r: bool)
    ensures
        r == is_primitive_name(w@),
{
    let int_word: [u8; 3] = [73u8, 110, 116];
    let float: [u8; 5] = [70u8, 108, 111, 97, 116];
    let string: [u8; 6] = [83u8, 116, 114, 105, 110, 103];
    let boolean: [u8; 4] = [66u8, 111, 111, 108];
    let void: [u8; 4] = [86u8, 111, 105, 100];
    let unit: [u8; 2] = [40u8, 41];
    let r = bytes_eq(w, int_word.as_slice()) || bytes_eq(w, float.as_slice()) || bytes_eq(w, string.as_slice())
        || bytes_eq(w, boolean.as_slice()) || bytes_eq(w, void.as_slice()) || bytes_eq(w, unit.as_slice());
    assert(int_word@ =~= seq![73u8, 110, 116]);
    assert(float@ =~= seq![70u8, 108, 111, 97, 116]);
    assert(string@ =~= seq![83u8, 116, 114, 105, 110, 103]);
    assert(boolean@ =~= seq![66u8, 111, 111, 108]);
    assert(void@ =~= seq![86u8, 111, 105, 100]);
    assert(unit@ =~= seq![40u8, 41]);
    r
}

/// Whether the name is that of a primitive type: `Int`, `Float`, `String`, `Bool`, `Void`
/// or `()`, alone or after `std`.
pub open spec fn is_primitive_type_name(name: Name) -> bool {
    is_primitive_type_path(name.path())
}

/// Whether the components name a primitive type, alone or after `std`.
pub open spec fn is_primitive_type_path(p: Seq<Seq<u8>>) -> bool {
    ||| (p.len() == 1 && is_primitive_name(p[0]))
    ||| (p.len() == 2 && p[0] == seq![115u8, 116, 100] && is_primitive_name(p[1]))
}

/// Whether the name is a single identifier that its own scope declares as a struct or a
/// trait.
pub open spec fn declared_type_where_used(env: &Environment, name: Name) -> bool {
    &&& name.moniker@.len() == 1
    &&& name.scope < env.scopes@.len()
    &&& env.scopes@[name.scope as int].name_spaces.declared.get_spec(name.path()[0]) matches Some(d)
    &&& !(d is Constant)
}

/// Links type names to their declarations.
pub struct TypeLinker;

impl TypeLinker {
    /// Records what every type name stands for; primitive types stay unrecorded. Fails on a
    /// name that stands for no struct or trait.
    pub fn link_types(env: &mut Environment, names: &Vec<Name>) -> (res: Result<(), EnvError>)
        requires
            old(env).wf(),
        ensures
            final(env).scopes == old(env).scopes,
            forall|k: (Seq<Seq<u8>>, usize)|
                old(env).resolved_names.get_spec(k) is Some ==> #[trigger] final(env).resolved_names.get_spec(k) is Some,
            res is Ok ==> forall|i: int|
                0 <= i < names@.len() ==> is_primitive_type_name(#[trigger] names@[i]) || (
                    final(env).resolved_names.get_spec(names@[i].spec_key()) matches Some(r) && (r is Struct || r is Trait)),
            (forall|i: int| 0 <= i < names@.len() ==> declared_type_where_used(old(env), #[trigger] names@[i])) ==> res is Ok,
    {
        let mut i: usize = 0;
        while i < names.len()
            invariant
                env.wf(),
                env.scopes == old(env).scopes,
                i <= names@.len(),
                forall|k: (Seq<Seq<u8>>, usize)|
                    old(env).resolved_names.get_spec(k) is Some ==> #[trigger] env.resolved_names.get_spec(k) is Some,
                forall|j: int|
                    0 <= j < i ==> is_primitive_type_name(#[trigger] names@[j]) || (
                        env.resolved_names.get_spec(names@[j].spec_key()) matches Some(r) && (r is Struct || r is Trait)),
            decreases names@.len() - i,
        {
            let linked_name = &names[i];
            proof {
                if forall|j: int| 0 <= j < names@.len() ==> declared_type_where_used(old(env), #[trigger] names@[j]) {
                    assert(declared_type_where_used(old(env), names@[i as int]));
                    assert(linked_name.path()[0] == linked_name.moniker@[0]@);
                }
            }
            match Self::link_type(env, linked_name)? {
                Some(type_declaration) => {
                    env.resolved_names.insert(linked_name.duplicate(), type_declaration);
                },
                None => {
                    if !Self::is_primitive_type(linked_name) {
                        match Self::link_type_in_module(env, linked_name)? {
                            Some(type_declaration) => {
                                env.resolved_names.insert(linked_name.duplicate(), type_declaration);
                            },
                            None => {
                                return Err(EnvError::UnresolvableType(join_path(linked_name.moniker.as_slice())));
                            },
                        }
                    }
                },
            }
            i = i + 1;
        }
        Ok(())
    }

    /// The struct or trait that the name stands for; an error where it stands for
    /// something else.
    fn link_type(env: &Environment, name: &Name) -> (res: Result<Option<Resolved>, EnvError>)
        requires
            env.wf(),
        ensures
            res matches Ok(Some(r)) ==> r is Struct || r is Trait,
            name.moniker@.len() == 1 && name.scope >= env.scopes@.len() ==> res == Err::<Option<Resolved>, EnvError>(
                EnvError::InvalidState,
            ),
            name.moniker@.len() == 1 && name.scope < env.scopes@.len()
                ==> (env.scopes@[name.scope as int].name_spaces.declared.get_spec(name.moniker@[0]@) matches Some(d) ==> if d is Constant {
                res matches Err(EnvError::NotAType(_))
            } else {
                res matches Ok(Some(r)) && r.spec() == SpecResolved::from_declared(d)
            }),
            name.moniker@.len() > 1 && name.scope < env.scopes@.len()
                ==> (env.scopes@[name.scope as int].name_spaces.declared.get_spec(name.path()[0]) matches Some(d) ==> match follow_path(
                env.scopes@,
                SpecResolved::from_declared(d),
                name.path(),
                1,
            ) {
                Some(r) => if r is Struct || r is Trait {
                    res matches Ok(Some(x)) && x.spec() == r
                } else {
                    res matches Err(EnvError::NotAType(_))
                },
                None => res is Err,
            }),
    {
        let resolved = if name.moniker.len() == 1 {
            if name.scope >= env.scopes.len() {
                return Err(EnvError::InvalidState);
            }
            ResolveHelper::resolve(env, name.scope, name.moniker[0].as_slice())?
        } else {
            Some(ResolveHelper::disambiguate(env, name)?)
        };
        match resolved {
            Some(r) => match r {
                Resolved::Struct(_) | Resolved::Trait(_) => Ok(Some(r)),
                _ => Err(EnvError::NotAType(join_path(name.moniker.as_slice()))),
            },
            None => Ok(None),
        }
    }

    /// The struct that the name stands for as a path through modules, if it stands for one.
    fn link_type_in_module(env: &Environment, name: &Name) -> (res: Result<Option<Resolved>, EnvError>)
        requires
            env.wf(),
        ensures
            res matches Ok(Some(r)) ==> r is Struct,
            name.moniker@.len() == 0 ==> res is Err,
            name.moniker@.len() > 0 && name.scope < env.scopes@.len()
                ==> (env.scopes@[name.scope as int].name_spaces.declared.get_spec(name.path()[0]) matches Some(d) ==> match follow_path(
                env.scopes@,
                SpecResolved::from_declared(d),
                name.path(),
                1,
            ) {
                Some(r) => if r is Struct {
                    res matches Ok(Some(x)) && x.spec() == r
                } else {
                    res == Ok::<Option<Resolved>, EnvError>(None)
                },
                None => res is Err,
            }),
    {
        let resolved = ResolveHelper::disambiguate(env, name)?;
        match resolved {
            Resolved::Struct(_) => Ok(Some(resolved)),
            _ => Ok(None),
        }
    }

    /// Whether the name is that of a primitive type: `Int`, `Float`, `String`, `Bool`,
    /// `Void` or `()`, alone or after `std`.
    pub fn is_primitive_type(name: &Name) -> (r: bool)
        ensures
            r == is_primitive_type_name(*name),
    {
        if name.moniker.len() == 1 {
            primitive_name(name.moniker[0].as_slice())
        } else if name.moniker.len() == 2 {
            let std: [u8; 3] = [115u8, 116, 100];
            assert(std@ =~= seq![115u8, 116, 100]);
            bytes_eq(name.moniker[0].as_slice(), std.as_slice()) && primitive_name(name.moniker[1].as_slice())
        } else {
            false
        }
    }
}

} // verus!
