//! Tells struct initializations from chaining methods that the grammar cannot tell apart.
use crate::ast::{Accessor, Expression, Name, Parameter, GLOBAL_SCOPE};
use crate::env::environment::{module_at, Environment};
use crate::names::{copy_bytes, copy_path_prefix, path_view};
use vstd::prelude::*;

verus! {

/// Whether the parameters can only belong to a struct initialization: more than one, or one
/// with a label.
pub fn parameter_indicates_struct_init(parameters: &[Parameter]) -> (r: bool)
    ensures
        r == (parameters@.len() > 1 || (parameters@.len() == 1 && parameters@[0] is Labelled)),
{
    parameters.len() > 1 || (parameters.len() == 1 && parameters[0].is_labelled())
}

/// Whether all but the last component of a name lead to a module, so that the name is a
/// struct of that module.
pub fn name_exists_directly_in_module(environment: &Environment, name: &Name) -> (r: bool)
    requires
        environment.wf(),
        name.moniker@.len() >= 1,
    ensures
        r == (module_at(environment.scopes@, GLOBAL_SCOPE, name.path().drop_last()) is Some),
{
    let prefix = copy_path_prefix(name.moniker.as_slice(), name.moniker.len() - 1);
    assert(name.path().drop_last() =~= name.path().take(name.moniker@.len() - 1));
    environment.find_module(prefix.as_slice()).is_some()
}

/// Whether a struct initialization stays one: it has init content, a simple name,
/// parameters that only a struct takes, or a name inside a module.
pub open spec fn stays_struct_init(scopes: Seq<crate::env::scope::Scope>, name: Name, parameters: Seq<Parameter>, has_init_content: bool) -> bool {
    ||| has_init_content
    ||| name.moniker@.len() <= 1
    ||| parameters.len() > 1
    ||| (parameters.len() == 1 && parameters[0] is Labelled)
    ||| module_at(scopes, GLOBAL_SCOPE, name.path().drop_last()) is Some
}

/// Turns `a.b.c(value)`, read as the initialization of a struct `c`, into the chaining method
/// `c` invoked on the constant `a.b` with `value`, where it cannot be a struct initialization.
/// Other expressions are returned as they are.
pub fn subdivide(environment: &Environment, struct_init: Expression) -> (r: Expression)
    requires
        environment.wf(),
    ensures
        match struct_init {
            Expression::StructInit { name, parameters, init_content } => {
                if stays_struct_init(environment.scopes@, name, parameters@, init_content is Some) {
                    r == struct_init
                } else {
                    r matches Expression::ChainingMethodInvocation { receiver, accessors } && {
                        &&& *receiver matches Expression::ConstUse(prefix)
                        &&& prefix.path() == name.path().drop_last()
                        &&& prefix.scope == GLOBAL_SCOPE
                        &&& accessors@.len() == 1
                        &&& accessors@[0].identifier@ == name.path().last()
                        &&& accessors@[0].value == if parameters@.len() == 0 {
                            None
                        } else {
                            Some(match parameters@.last() {
                                Parameter::Plain(v) => v,
                                Parameter::Labelled { content, .. } => content,
                            })
                        }
                    }
                }
            },
            _ => r == struct_init,
        },
{
    match struct_init {
        Expression::StructInit { name, parameters, init_content } => {
            if init_content.is_some() || name.moniker.len() <= 1 || parameter_indicates_struct_init(
                parameters.as_slice(),
            ) || name_exists_directly_in_module(environment, &name) {
                return Expression::StructInit { name, parameters, init_content };
            }
            let n = name.moniker.len();
            let prefix = copy_path_prefix(name.moniker.as_slice(), n - 1);
            let field_name = copy_bytes(name.moniker[n - 1].as_slice());
            proof {
                assert(name.path().drop_last() =~= name.path().take(n - 1));
            }
            let mut parameters = parameters;
            let ghost ps = parameters@;
            let field_value = match parameters.pop() {
                Some(parameter) => Some(parameter.expression_owned()),
                None => None,
            };
            let prefix_name = Name::qualified(prefix);
            let receiver = Box::new(Expression::ConstUse(prefix_name));
            Expression::ChainingMethodInvocation {
                receiver,
                accessors: vec![Accessor { identifier: field_name, value: field_value }],
            }
        },
        other => other,
    }
}

} // verus!
