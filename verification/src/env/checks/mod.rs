//! The checks made on a program once its names are resolved.
pub mod struct_hierarchy;
pub mod type_checking;

use crate::ast::{AbstractSyntaxTree, DeclId, Declaration};
use crate::env::checks::struct_hierarchy::{hierarchy_acyclic, struct_exists, StructHierarchyChecker};
use crate::env::environment::Environment;
use crate::env::error::EnvError;
use crate::env::name_resolution::type_checking::type_checker::{entry_found, entry_refusal, declaration_checked, TypeChecker};
use crate::names::Ident;
use vstd::prelude::*;

verus! {

/// Why the struct hierarchy of a program is refused.
#[derive(Debug, PartialEq, Eq)]
pub enum Error {
    /// A struct that contains itself, named by its bytes.
    StructCycleDependency(Ident),
}

/// Checks a program: its entry constant, the types of its declarations and the hierarchy of
/// its structs, in this order, stopping at the first failure.
pub fn check(environment: &Environment, syntax_trees: &Vec<AbstractSyntaxTree>) -> (res: Result<(), EnvError>)
    requires
        environment.wf(),
    ensures
        entry_refusal(environment) matches Some(e) ==> res == Err::<(), EnvError>(e),
        res is Ok ==> entry_found(environment),
        res is Ok ==> forall|t: int, i: int|
            0 <= t < syntax_trees@.len() && 0 <= i < syntax_trees@[t].compilation_unit.declarations@.len()
                ==> declaration_checked(environment, syntax_trees@, t, #[trigger] syntax_trees@[t].compilation_unit.declarations@[i])
                && match syntax_trees@[t].compilation_unit.declarations@[i] {
                    Declaration::Struct(s) => struct_exists(syntax_trees@, DeclId { tree: t as usize, index: s }),
                    _ => true,
                },
        res is Ok ==> hierarchy_acyclic(environment, syntax_trees@),
{
    let mut type_checker = TypeChecker::with_environment(environment, syntax_trees);
    type_checker.entry_check()?;
    type_checker.check()?;
    let mut hierarchy = StructHierarchyChecker::with_environment(environment, syntax_trees);
    hierarchy.check()
}

} // verus!
