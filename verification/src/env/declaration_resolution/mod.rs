//! Declares what the syntax trees declare and imports what they import.
pub mod declaration_operations;
pub mod import_operations;

use crate::ast::AbstractSyntaxTree;
use crate::ast::GLOBAL_SCOPE;
use crate::env::declaration_resolution::declaration_operations::{
    collected, declares_nothing, imports_only, lemma_module_at_kept, paired_len, trees_declare_cleanly, trees_names,
    DeclarationAdder, UnresolvedNames,
};
use crate::env::declaration_resolution::import_operations::{imports_nothing, Importer};
use crate::env::environment::{lemma_modules_extended_trans, module_at, modules_extended, Environment};
use crate::env::error::EnvError;
use crate::names::{path_view, Ident};
use vstd::prelude::*;

verus! {

/// Whether each tree that has a module path declares nothing at all, and each such path
/// names a module of the environment.
pub open spec fn trees_empty(env: &Environment, trees: Seq<AbstractSyntaxTree>, paths: Seq<Vec<Ident>>) -> bool {
    forall|t: int|
        0 <= t < paired_len(trees, paths) ==> (#[trigger] trees[t]).compilation_unit.declarations@.len() == 0
            && module_at(env.scopes@, GLOBAL_SCOPE, path_view(paths[t]@)) is Some
}

/// Declares the declarations of every tree in the scope of its module, then imports into
/// each module what its tree imports; returns the names that remain to be resolved. The
/// tree at index `i` belongs to the module `module_paths[i]`.
pub fn resolve(
    environment: &mut Environment,
    syntax_trees: &Vec<AbstractSyntaxTree>,
    module_paths: &[Vec<Ident>],
) -> (res: Result<UnresolvedNames, EnvError>)
    requires
        old(environment).wf(),
    ensures
        final(environment).wf(),
        final(environment).scopes@.len() == old(environment).scopes@.len(),
        modules_extended(old(environment).scopes@, final(environment).scopes@),
        res matches Ok(names) ==> collected(&names) == trees_names(
            syntax_trees@,
            if syntax_trees@.len() < module_paths@.len() {
                syntax_trees@.len() as int
            } else {
                module_paths@.len() as int
            },
        ),
        trees_empty(old(environment), syntax_trees@, module_paths@) ==> res is Ok,
        trees_declare_cleanly(old(environment), syntax_trees@, module_paths@) && (forall|t: int, j: int|
            0 <= t < paired_len(syntax_trees@, module_paths@) && 0 <= j < syntax_trees@[t].compilation_unit.declarations@.len()
                ==> !(#[trigger] syntax_trees@[t].compilation_unit.declarations@[j] is Import)) ==> res is Ok,
        0 < paired_len(syntax_trees@, module_paths@)
            && module_at(old(environment).scopes@, GLOBAL_SCOPE, path_view(module_paths@[0]@)) is None
            ==> (res matches Err(EnvError::ModuleNotFound(_))),
{
    let ghost start = environment.scopes@;
    proof {
        if trees_empty(old(environment), syntax_trees@, module_paths@) {
            assert forall|t: int| 0 <= t < paired_len(syntax_trees@, module_paths@) implies imports_only(
                #[trigger] syntax_trees@[t],
            ) && module_at(old(environment).scopes@, GLOBAL_SCOPE, path_view(module_paths@[t]@)) is Some by {
                assert(syntax_trees@[t].compilation_unit.declarations@.len() == 0);
            }
            assert(declares_nothing(old(environment), syntax_trees@, module_paths@));
        }
    }
    let unresolved = DeclarationAdder::add_from(environment, syntax_trees, module_paths)?;
    let ghost declared = environment.scopes@;
    proof {
        assert forall|i: int, k: Seq<u8>|
            0 <= i < start.len() && (#[trigger] start[i].name_spaces.modules.get_spec(k)) is Some
            implies declared[i].name_spaces.modules.get_spec(k) == start[i].name_spaces.modules.get_spec(k) by {
            assert(declared[i].name_spaces.modules == start[i].name_spaces.modules);
        }
    }
    proof {
        if trees_empty(old(environment), syntax_trees@, module_paths@) {
            assert forall|t: int| 0 <= t < syntax_trees@.len() && t < module_paths@.len() implies (forall|j: int|
                0 <= j < syntax_trees@[t].compilation_unit.declarations@.len()
                    ==> !(#[trigger] syntax_trees@[t].compilation_unit.declarations@[j] is Import))
                && module_at(environment.scopes@, GLOBAL_SCOPE, path_view((#[trigger] module_paths@[t])@)) is Some by {
                assert(syntax_trees@[t].compilation_unit.declarations@.len() == 0);
            }
            assert(imports_nothing(environment, syntax_trees@, module_paths@));
        }
    }
    proof {
        if trees_declare_cleanly(old(environment), syntax_trees@, module_paths@) && (forall|t: int, j: int|
            0 <= t < paired_len(syntax_trees@, module_paths@) && 0 <= j < syntax_trees@[t].compilation_unit.declarations@.len()
                ==> !(#[trigger] syntax_trees@[t].compilation_unit.declarations@[j] is Import)) {
            assert forall|t: int| 0 <= t < syntax_trees@.len() && t < module_paths@.len() implies (forall|j: int|
                0 <= j < syntax_trees@[t].compilation_unit.declarations@.len()
                    ==> !(#[trigger] syntax_trees@[t].compilation_unit.declarations@[j] is Import))
                && module_at(environment.scopes@, GLOBAL_SCOPE, path_view((#[trigger] module_paths@[t])@)) is Some by {
                assert(module_at(old(environment).scopes@, GLOBAL_SCOPE, path_view(module_paths@[t]@)) is Some);
                lemma_module_at_kept(old(environment), environment, path_view(module_paths@[t]@));
            }
            assert(imports_nothing(environment, syntax_trees@, module_paths@));
        }
    }
    Importer::import_from(environment, syntax_trees, module_paths)?;
    proof {
        lemma_modules_extended_trans(start, declared, environment.scopes@);
    }
    Ok(unresolved)
}

} // verus!
