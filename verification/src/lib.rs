//! The front end of a small language for documents: it reads source files into syntax
//! trees, builds the environment of modules, scopes and names of a program, and checks its
//! types.
pub mod ast;
pub mod env;
pub mod iterating;
pub mod names;
pub mod parser;
pub mod syntax;
pub mod tokenizer;

use crate::ast::AbstractSyntaxTree;
use crate::env::checks::struct_hierarchy::hierarchy_acyclic;
use crate::ast::GLOBAL_SCOPE;
use crate::env::construction::scope_operations::{lemma_tree_marked_grows, marked_in_module};
use crate::env::env_builder::{module_path_of, paths_view};
use crate::env::environment::{lemma_module_at_extended, module_at, Environment};
use crate::env::declaration_resolution::declaration_operations::trees_names;
use crate::env::error::EnvError;
use crate::env::name_resolution::names_recorded;
use crate::env::name_resolution::type_checking::type_checker::declaration_checked;
use crate::syntax::{literal_constants_text, syntax_tree, ParseError};
use vstd::prelude::*;

verus! {

/// A source file of a program: its path from the source folder, and its text.
pub struct SourceFile {
    pub path: String,
    pub content: String,
}

/// Why a program could not be compiled.
#[derive(Debug, PartialEq, Eq)]
pub enum CompileError {
    /// The file at the index could not be read as a syntax tree.
    Syntax { file: usize, error: ParseError },
    /// A source file placed in the module `std`, which belongs to the standard library;
    /// the bytes of its path.
    StdInjection(Vec<u8>),
    /// The environment of the program could not be built.
    Environment(EnvError),
}

/// A program whose environment was built and checked, with its syntax trees.
pub struct Compilation {
    pub environment: Environment,
    pub syntax_trees: Vec<AbstractSyntaxTree>,
}

/// Whether the path lies in the module `std`: it is `std` or starts with `std/`.
pub open spec fn is_std_path(p: Seq<u8>) -> bool {
    ||| p == seq![115u8, 116, 100]
    ||| (p.len() >= 4 && p.take(4) == seq![115u8, 116, 100, 47])
}

/// Whether the path lies in the module `std`.
pub fn in_std(path: &[u8]) -> (r: bool)
    ensures
        r == is_std_path(path@),
{
    if path.len() == 3 {
        let r = path[0] == 115u8 && path[1] == 116u8 && path[2] == 100u8;
        proof {
            if r {
                assert(path@ =~= seq![115u8, 116, 100]);
            }
        }
        r
    } else if path.len() >= 4 {
        let r = path[0] == 115u8 && path[1] == 116u8 && path[2] == 100u8 && path[3] == 47u8;
        proof {
            if r {
                assert(path@.take(4) =~= seq![115u8, 116, 100, 47]);
            } else {
                assert(path@.take(4)[0] == path@[0] && path@.take(4)[1] == path@[1]
                    && path@.take(4)[2] == path@[2] && path@.take(4)[3] == path@[3]);
            }
        }
        r
    } else {
        false
    }
}

/// Every file holds stray `;` and constants bound to a literal alone.
pub open spec fn literal_files(files: Seq<SourceFile>) -> bool {
    forall|i: int| 0 <= i < files.len() ==> literal_constants_text(vstd::utf8::encode_utf8((#[trigger] files[i]).content@))
}

/// Compiles a program against its standard library: reads every file, those of the
/// standard library first, into a syntax tree; refuses program files placed in `std`; builds
/// the environment, each file in the module of its directories below `src`; then checks the
/// entry `Main`, the types of the declarations and the hierarchy of structs. Once it
/// succeeds, every name the program uses is recorded with what it stands for.
pub fn compile(standard_library: &[SourceFile], sources: &[SourceFile]) -> (res: Result<Compilation, CompileError>)
    ensures
        res matches Ok(c) ==> c.syntax_trees@.len() == standard_library@.len() + sources@.len()
            && c.environment.wf(),
        res is Ok ==> forall|i: int|
            0 <= i < sources@.len() ==> !is_std_path(vstd::utf8::encode_utf8(#[trigger] sources@[i].path@)),
        res matches Err(CompileError::Syntax { file, .. }) ==> file < standard_library@.len() + sources@.len(),
        res matches Ok(c) ==> forall|i: int|
            0 <= i < standard_library@.len() ==> (#[trigger] module_at(
                c.environment.scopes@,
                GLOBAL_SCOPE,
                module_path_of(vstd::utf8::encode_utf8(standard_library@[i].path@)),
            )) is Some,
        res matches Ok(c) ==> forall|i: int|
            0 <= i < sources@.len() ==> (#[trigger] module_at(
                c.environment.scopes@,
                GLOBAL_SCOPE,
                module_path_of(vstd::utf8::encode_utf8(sources@[i].path@)),
            )) is Some,
        res matches Ok(c) ==> names_recorded(&c.environment, trees_names(c.syntax_trees@, c.syntax_trees@.len() as int)),
        res matches Ok(c) ==> hierarchy_acyclic(&c.environment, c.syntax_trees@),
        res matches Ok(c) ==> forall|i: int|
            0 <= i < standard_library@.len() ==> marked_in_module(
                #[trigger] c.syntax_trees@[i],
                c.environment.scopes@,
                module_path_of(vstd::utf8::encode_utf8(standard_library@[i].path@)),
            ),
        res matches Ok(c) ==> forall|i: int|
            0 <= i < sources@.len() ==> marked_in_module(
                #[trigger] c.syntax_trees@[standard_library@.len() + i],
                c.environment.scopes@,
                module_path_of(vstd::utf8::encode_utf8(sources@[i].path@)),
            ),
        res matches Ok(c) ==> forall|t: int, i: int|
            0 <= t < c.syntax_trees@.len() && 0 <= i < c.syntax_trees@[t].compilation_unit.declarations@.len()
                ==> declaration_checked(
                &c.environment,
                c.syntax_trees@,
                t,
                #[trigger] c.syntax_trees@[t].compilation_unit.declarations@[i],
            ),
        res matches Err(CompileError::StdInjection(p)) ==> exists|i: int|
            0 <= i < sources@.len() && p@ == vstd::utf8::encode_utf8(#[trigger] sources@[i].path@)
                && is_std_path(p@),
        literal_files(standard_library@) && literal_files(sources@) && (exists|i: int|
            0 <= i < sources@.len() && is_std_path(vstd::utf8::encode_utf8(#[trigger] sources@[i].path@)))
            ==> res matches Err(CompileError::StdInjection(_)),
        literal_files(standard_library@) && literal_files(sources@) && (forall|i: int|
            0 <= i < sources@.len() ==> !is_std_path(vstd::utf8::encode_utf8(#[trigger] sources@[i].path@))) ==> (res is Ok
            || res matches Err(CompileError::Environment(_))),
{
    let mut syntax_trees: Vec<AbstractSyntaxTree> = Vec::new();
    let mut i: usize = 0;
    while i < standard_library.len()
        invariant
            i <= standard_library@.len(),
            syntax_trees@.len() == i,
        decreases standard_library@.len() - i,
    {
        let text = standard_library[i].content.as_str();
        match syntax_tree(text) {
            Ok(tree) => syntax_trees.push(tree),
            Err(error) => {
                return Err(CompileError::Syntax { file: i, error });
            },
        }
        i = i + 1;
    }
    let mut k: usize = 0;
    while k < sources.len()
        invariant
            k <= sources@.len(),
            syntax_trees@.len() == standard_library@.len() + k,
        decreases sources@.len() - k,
    {
        let text = sources[k].content.as_str();
        match syntax_tree(text) {
            Ok(tree) => syntax_trees.push(tree),
            Err(error) => {
                return Err(CompileError::Syntax { file: syntax_trees.len(), error });
            },
        }
        k = k + 1;
    }
    let mut paths: Vec<String> = Vec::new();
    let mut m: usize = 0;
    while m < standard_library.len()
        invariant
            m <= standard_library@.len(),
            paths@.len() == m,
            forall|q: int| 0 <= q < m ==> #[trigger] paths@[q] == standard_library@[q].path,
        decreases standard_library@.len() - m,
    {
        paths.push(standard_library[m].path.clone());
        m = m + 1;
    }
    let mut j: usize = 0;
    while j < sources.len()
        invariant
            j <= sources@.len(),
            paths@.len() == standard_library@.len() + j,
            forall|q: int| 0 <= q < standard_library@.len() ==> #[trigger] paths@[q] == standard_library@[q].path,
            forall|q: int| 0 <= q < j ==> #[trigger] paths@[standard_library@.len() + q] == sources@[q].path,
            forall|q: int| 0 <= q < j ==> !is_std_path(vstd::utf8::encode_utf8(#[trigger] sources@[q].path@)),
        decreases sources@.len() - j,
    {
        let bytes = sources[j].path.as_str().as_bytes();
        assert(bytes@ == vstd::utf8::encode_utf8(sources@[j as int].path@));
        if in_std(bytes) {
            return Err(CompileError::StdInjection(crate::names::copy_bytes(bytes)));
        }
        paths.push(sources[j].path.clone());
        j = j + 1;
    }
    let mut trees = syntax_trees;
    let added = Environment::builder().add_modules_from_paths(paths.as_slice());
    let ghost added_scopes = added.environment.scopes@;
    let ghost added_paths = paths_view(added.module_paths@);
    let ghost added_error = added.error;
    let generated = added.generate_scopes(&mut trees);
    proof {
        assert(paths_view(added.module_paths@).len() == paths@.len());
        assert(paths_view(generated.module_paths@).len() == paths@.len());
        assert(generated.module_paths@.len() == trees@.len());
    }
    let ghost generated_scopes = generated.environment.scopes@;
    let ghost generated_error = generated.error;
    let ghost generated_paths = paths_view(generated.module_paths@);
    let resolved = generated.resolve_names(&trees);
    let ghost resolved_scopes = resolved.environment.scopes@;
    let validated = resolved.validate(&trees);
    let environment = match validated.build() {
        Ok(environment) => environment,
        Err(e) => {
            return Err(CompileError::Environment(e));
        },
    };
    proof {
        assert(generated_error is None);
        assert(added_error is None);
        assert forall|q: int| 0 <= q < paths@.len() implies (#[trigger] module_at(
            environment.scopes@,
            GLOBAL_SCOPE,
            module_path_of(vstd::utf8::encode_utf8(paths@[q]@)),
        )) is Some by {
            assert(added_paths[q] == module_path_of(vstd::utf8::encode_utf8(paths@[q]@)));
            assert(module_at(added_scopes, GLOBAL_SCOPE, added_paths[q]) is Some);
            lemma_module_at_extended(added_scopes, generated_scopes, GLOBAL_SCOPE, added_paths[q]);
            lemma_module_at_extended(generated_scopes, resolved_scopes, GLOBAL_SCOPE, added_paths[q]);
        }
    }
    proof {
        assert forall|i: int| 0 <= i < standard_library@.len() implies (#[trigger] module_at(
            environment.scopes@,
            GLOBAL_SCOPE,
            module_path_of(vstd::utf8::encode_utf8(standard_library@[i].path@)),
        )) is Some by {
            assert(paths@[i] == standard_library@[i].path);
            assert(module_at(environment.scopes@, GLOBAL_SCOPE, module_path_of(vstd::utf8::encode_utf8(paths@[i]@))) is Some);
        }
        assert forall|i: int| 0 <= i < sources@.len() implies (#[trigger] module_at(
            environment.scopes@,
            GLOBAL_SCOPE,
            module_path_of(vstd::utf8::encode_utf8(sources@[i].path@)),
        )) is Some by {
            let q = standard_library@.len() + i;
            assert(paths@[q] == sources@[i].path);
            assert(module_at(environment.scopes@, GLOBAL_SCOPE, module_path_of(vstd::utf8::encode_utf8(paths@[q]@))) is Some);
        }
    }
    proof {
        assert forall|q: int| 0 <= q < paths@.len() implies marked_in_module(
            #[trigger] trees@[q],
            environment.scopes@,
            module_path_of(vstd::utf8::encode_utf8(paths@[q]@)),
        ) by {
            assert(generated_paths[q] == added_paths[q]);
            assert(added_paths[q] == module_path_of(vstd::utf8::encode_utf8(paths@[q]@)));
            assert(marked_in_module(trees@[q], generated_scopes, generated_paths[q]));
            let m = module_at(generated_scopes, GLOBAL_SCOPE, generated_paths[q])->0;
            lemma_module_at_extended(generated_scopes, resolved_scopes, GLOBAL_SCOPE, generated_paths[q]);
            lemma_tree_marked_grows(trees@[q], generated_scopes, resolved_scopes, m);
        }
        assert forall|i: int| 0 <= i < sources@.len() implies marked_in_module(
            #[trigger] trees@[standard_library@.len() + i],
            environment.scopes@,
            module_path_of(vstd::utf8::encode_utf8(sources@[i].path@)),
        ) by {
            let q = standard_library@.len() + i;
            assert(paths@[q] == sources@[i].path);
        }
        assert forall|i: int| 0 <= i < standard_library@.len() implies marked_in_module(
            #[trigger] trees@[i],
            environment.scopes@,
            module_path_of(vstd::utf8::encode_utf8(standard_library@[i].path@)),
        ) by {
            assert(paths@[i] == standard_library@[i].path);
        }
    }
    Ok(Compilation { environment, syntax_trees: trees })
}

} // verus!
