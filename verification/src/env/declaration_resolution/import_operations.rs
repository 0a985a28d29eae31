//! Carries out the `use` declarations of the syntax trees.
use crate::ast::{AbstractSyntaxTree, Declaration, Import, ScopeId, GLOBAL_SCOPE};
use crate::env::environment::{lemma_modules_extended_trans, module_at, modules_extended, same_except, Environment};
use crate::env::error::EnvError;
use crate::env::scope::DeclaredElement;
use crate::names::{copy_bytes, copy_path, join_path, path_view, Ident};
use vstd::prelude::*;

verus! {

/// What one import brings into a scope.
pub enum Importing {
    /// Every declaration of the module with the scope, whose path is given.
    Wildcard(ScopeId, Vec<Ident>),
    /// The module with the scope, under the name.
    Module(ScopeId, Ident),
    /// The declaration, under the name.
    ExpressionOrStruct(DeclaredElement, Ident),
}

/// What `use path` names: the declaration or module that the last component names in the
/// module that the other components lead to.
pub open spec fn single_import_spec(env: &Environment, import: Seq<Seq<u8>>) -> Option<(bool, DeclaredElement, ScopeId)> {
    if import.len() == 0 {
        None
    } else {
        match module_at(env.scopes@, GLOBAL_SCOPE, import.drop_last()) {
            Some(s) => if s < env.scopes@.len() {
                match env.scopes@[s as int].name_spaces.declared.get_spec(import.last()) {
                    Some(d) => Some((true, d, 0)),
                    None => match env.scopes@[s as int].name_spaces.modules.get_spec(import.last()) {
                        Some(m) => Some((false, d_any(), m)),
                        None => None,
                    },
                }
            } else {
                None
            },
            None => None,
        }
    }
}

/// A placeholder element, where a module is imported.
pub open spec fn d_any() -> DeclaredElement {
    DeclaredElement::Constant(crate::ast::DeclId { tree: 0, index: 0 })
}

/// The scopes keep what they declare, import by wildcard and name as modules.
pub open spec fn imports_kept(e1: &Environment, e2: &Environment) -> bool {
    &&& e1.scopes@.len() == e2.scopes@.len()
    &&& modules_extended(e1.scopes@, e2.scopes@)
    &&& forall|i: int, k: Seq<u8>|
        0 <= i < e1.scopes@.len() && (#[trigger] e1.scopes@[i].name_spaces.declared.get_spec(k)) is Some
            ==> e2.scopes@[i].name_spaces.declared.get_spec(k) is Some
    &&& forall|i: int, w: ScopeId|
        0 <= i < e1.scopes@.len() && (#[trigger] e1.scopes@[i].name_spaces.wildcard_imports@.contains(w))
            ==> e2.scopes@[i].name_spaces.wildcard_imports@.contains(w)
}

/// What one importing brings is in the target scope.
pub open spec fn importing_done(env: &Environment, target: int, importing: Importing) -> bool {
    match importing {
        Importing::ExpressionOrStruct(_, n) => env.scopes@[target].name_spaces.declared.get_spec(n@) is Some,
        Importing::Wildcard(w, _) => env.scopes@[target].name_spaces.wildcard_imports@.contains(w),
        Importing::Module(m, n) => env.scopes@[target].name_spaces.modules.get_spec(n@) == Some(m),
    }
}

/// The importing carries out `use path` as the environment `env` shows it.
pub open spec fn realizes_single(env: &Environment, path: Seq<Seq<u8>>, importing: Importing) -> bool {
    match single_import_spec(env, path) {
        Some((true, _, _)) => importing matches Importing::ExpressionOrStruct(_, n) && n@ == path.last(),
        Some((false, _, m)) => importing matches Importing::Module(x, n) && x == m && n@ == path.last(),
        None => false,
    }
}

/// One of the importings carries out `use path`.
pub open spec fn realized_in(env: &Environment, path: Seq<Seq<u8>>, importings: Seq<Importing>) -> bool {
    exists|m: int| 0 <= m < importings.len() && realizes_single(env, path, #[trigger] importings[m])
}

/// The importings carry out the `use` declaration, as the environment `env` shows it.
pub open spec fn import_expected(env: &Environment, import: Import, importings: Seq<Importing>) -> bool {
    match import {
        Import::Single(p) => realized_in(env, path_view(p@), importings),
        Import::Wildcard(p) => exists|m: int|
            0 <= m < importings.len() && (#[trigger] importings[m] matches Importing::Wildcard(w, _)
                && module_at(env.scopes@, GLOBAL_SCOPE, path_view(p@)) == Some(w)),
        Import::Multiple { prefix, suffices } => forall|k: int|
            0 <= k < suffices.len() ==> realized_in(env, path_view(prefix@) + path_view((#[trigger] suffices@[k])@), importings),
    }
}

proof fn lemma_realized_append(env: &Environment, path: Seq<Seq<u8>>, a: Seq<Importing>, b: Seq<Importing>)
    ensures
        realized_in(env, path, a) ==> realized_in(env, path, a + b),
        realized_in(env, path, b) ==> realized_in(env, path, a + b),
{
    let c = a + b;
    if realized_in(env, path, a) {
        let m = choose|m: int| 0 <= m < a.len() && realizes_single(env, path, #[trigger] a[m]);
        assert(c[m] == a[m]);
    }
    if realized_in(env, path, b) {
        let m = choose|m: int| 0 <= m < b.len() && realizes_single(env, path, #[trigger] b[m]);
        assert(c[a.len() + m] == b[m]);
    }
}

/// What `use path` brings stands in the target scope of `new`: the declaration or module that
/// the path names in `old`.
pub open spec fn single_effect(old: &Environment, new: &Environment, target: int, path: Seq<Seq<u8>>) -> bool {
    match single_import_spec(old, path) {
        Some((true, _, _)) => new.scopes@[target].name_spaces.declared.get_spec(path.last()) is Some,
        Some((false, _, m)) => new.scopes@[target].name_spaces.modules.get_spec(path.last()) == Some(m),
        None => false,
    }
}

/// What the `use` declaration brings stands in the target scope of `new`: each declaration
/// or module that it names in `old` under its name, and a module that it imports by
/// wildcard among the wildcard imports.
pub open spec fn import_effect(old: &Environment, new: &Environment, target: int, import: Import) -> bool {
    match import {
        Import::Single(p) => single_effect(old, new, target, path_view(p@)),
        Import::Wildcard(p) => module_at(old.scopes@, GLOBAL_SCOPE, path_view(p@)) matches Some(w)
            && new.scopes@[target].name_spaces.wildcard_imports@.contains(w),
        Import::Multiple { prefix, suffices } => forall|k: int|
            0 <= k < suffices.len() ==> single_effect(old, new, target, path_view(prefix@) + path_view((#[trigger] suffices@[k])@)),
    }
}

/// Every importing is carried out in the target scope.
pub open spec fn all_done(env: &Environment, target: int, importings: Seq<Importing>) -> bool {
    forall|m: int| 0 <= m < importings.len() ==> importing_done(env, target, #[trigger] importings[m])
}

/// The importings found for tree `t` carry out its `use` declarations in the scope of its
/// module, `target`.
pub open spec fn tree_expected(
    env: &Environment,
    trees: Seq<AbstractSyntaxTree>,
    paths: Seq<Vec<Ident>>,
    t: int,
    target: ScopeId,
    importings: Seq<Importing>,
) -> bool {
    &&& module_at(env.scopes@, GLOBAL_SCOPE, path_view(paths[t]@)) == Some(target)
    &&& forall|i: int|
        0 <= i < trees[t].compilation_unit.declarations@.len() ==> match #[trigger] trees[t].compilation_unit.declarations@[i] {
            Declaration::Import(import) => import_expected(env, import, importings),
            _ => true,
        }
}

/// Every `use` of tree `t` is carried out in the scope of its module.
pub open spec fn tree_imported(old: &Environment, new: &Environment, trees: Seq<AbstractSyntaxTree>, paths: Seq<Vec<Ident>>, t: int) -> bool {
    &&& module_at(old.scopes@, GLOBAL_SCOPE, path_view(paths[t]@)) matches Some(target)
    &&& target < new.scopes@.len()
    &&& forall|i: int|
        0 <= i < trees[t].compilation_unit.declarations@.len() ==> match #[trigger] trees[t].compilation_unit.declarations@[i] {
            Declaration::Import(import) => import_effect(old, new, target as int, import),
            _ => true,
        }
}

proof fn lemma_imports_kept_trans(e1: &Environment, e2: &Environment, e3: &Environment)
    requires
        imports_kept(e1, e2),
        imports_kept(e2, e3),
    ensures
        imports_kept(e1, e3),
{
    crate::env::environment::lemma_modules_extended_trans(e1.scopes@, e2.scopes@, e3.scopes@);
    assert forall|i: int, k: Seq<u8>|
        0 <= i < e1.scopes@.len() && (#[trigger] e1.scopes@[i].name_spaces.declared.get_spec(k)) is Some
        implies e3.scopes@[i].name_spaces.declared.get_spec(k) is Some by {
        assert(e2.scopes@[i].name_spaces.declared.get_spec(k) is Some);
    }
    assert forall|i: int, w: ScopeId|
        0 <= i < e1.scopes@.len() && (#[trigger] e1.scopes@[i].name_spaces.wildcard_imports@.contains(w))
        implies e3.scopes@[i].name_spaces.wildcard_imports@.contains(w) by {
        assert(e2.scopes@[i].name_spaces.wildcard_imports@.contains(w));
    }
}

proof fn lemma_done_kept(e1: &Environment, e2: &Environment, target: int, importing: Importing)
    requires
        imports_kept(e1, e2),
        0 <= target < e1.scopes@.len(),
        importing_done(e1, target, importing),
    ensures
        importing_done(e2, target, importing),
{
    match importing {
        Importing::ExpressionOrStruct(_, n) => {
            assert(e1.scopes@[target].name_spaces.declared.get_spec(n@) is Some);
        },
        Importing::Wildcard(w, _) => {
            assert(e1.scopes@[target].name_spaces.wildcard_imports@.contains(w));
        },
        Importing::Module(m, n) => {
            assert(e1.scopes@[target].name_spaces.modules.get_spec(n@) is Some);
        },
    }
}

proof fn lemma_expected_append(env: &Environment, import: Import, a: Seq<Importing>, b: Seq<Importing>)
    ensures
        import_expected(env, import, a) ==> import_expected(env, import, a + b),
        import_expected(env, import, b) ==> import_expected(env, import, a + b),
{
    let c = a + b;
    match import {
        Import::Single(p) => {
            lemma_realized_append(env, path_view(p@), a, b);
        },
        Import::Wildcard(p) => {
            if import_expected(env, import, a) {
                let m = choose|m: int|
                    0 <= m < a.len() && (#[trigger] a[m] matches Importing::Wildcard(w, _)
                        && module_at(env.scopes@, GLOBAL_SCOPE, path_view(p@)) == Some(w));
                assert(c[m] == a[m]);
            }
            if import_expected(env, import, b) {
                let m = choose|m: int|
                    0 <= m < b.len() && (#[trigger] b[m] matches Importing::Wildcard(w, _)
                        && module_at(env.scopes@, GLOBAL_SCOPE, path_view(p@)) == Some(w));
                assert(c[a.len() + m] == b[m]);
            }
        },
        Import::Multiple { prefix, suffices } => {
            assert forall|k: int| 0 <= k < suffices.len() implies (realized_in(
                env,
                path_view(prefix@) + path_view((#[trigger] suffices@[k])@),
                a,
            ) ==> realized_in(env, path_view(prefix@) + path_view(suffices@[k]@), c)) && (realized_in(
                env,
                path_view(prefix@) + path_view(suffices@[k]@),
                b,
            ) ==> realized_in(env, path_view(prefix@) + path_view(suffices@[k]@), c)) by {
                lemma_realized_append(env, path_view(prefix@) + path_view(suffices@[k]@), a, b);
            }
        },
    }
}

proof fn lemma_realized_done(old: &Environment, new: &Environment, target: int, path: Seq<Seq<u8>>, importings: Seq<Importing>)
    requires
        realized_in(old, path, importings),
        forall|m: int| 0 <= m < importings.len() ==> importing_done(new, target, #[trigger] importings[m]),
    ensures
        single_effect(old, new, target, path),
{
    let m = choose|m: int| 0 <= m < importings.len() && realizes_single(old, path, #[trigger] importings[m]);
    assert(importing_done(new, target, importings[m]));
}

proof fn lemma_expected_done(old: &Environment, new: &Environment, target: int, import: Import, importings: Seq<Importing>)
    requires
        import_expected(old, import, importings),
        forall|m: int| 0 <= m < importings.len() ==> importing_done(new, target, #[trigger] importings[m]),
    ensures
        import_effect(old, new, target, import),
{
    match import {
        Import::Single(p) => {
            lemma_realized_done(old, new, target, path_view(p@), importings);
        },
        Import::Wildcard(p) => {
            let m = choose|m: int|
                0 <= m < importings.len() && (#[trigger] importings[m] matches Importing::Wildcard(w, _)
                    && module_at(old.scopes@, GLOBAL_SCOPE, path_view(p@)) == Some(w));
            assert(importing_done(new, target, importings[m]));
        },
        Import::Multiple { prefix, suffices } => {
            assert forall|k: int| 0 <= k < suffices.len() implies single_effect(
                old,
                new,
                target,
                path_view(prefix@) + path_view((#[trigger] suffices@[k])@),
            ) by {
                lemma_realized_done(old, new, target, path_view(prefix@) + path_view(suffices@[k]@), importings);
            }
        },
    }
}

/// Whether what a `use` names can be found: the declaration or module of a single path,
/// the module of a wildcard, and what each path of a group names.
pub open spec fn import_resolvable(env: &Environment, import: Import) -> bool {
    match import {
        Import::Single(name) => single_import_spec(env, path_view(name@)) is Some,
        Import::Wildcard(module) => module_at(env.scopes@, GLOBAL_SCOPE, path_view(module@)) is Some,
        Import::Multiple { prefix, suffices } => forall|k: int|
            0 <= k < suffices@.len() ==> single_import_spec(env, path_view(prefix@) + path_view((#[trigger] suffices@[k])@))
                is Some,
    }
}

/// Whether the `use` names declarations only: each path it names leads to a declaration,
/// and it is no wildcard.
pub open spec fn imports_declarations(env: &Environment, import: Import) -> bool {
    match import {
        Import::Single(name) => single_import_spec(env, path_view(name@)) matches Some((true, _, _)),
        Import::Wildcard(_) => false,
        Import::Multiple { prefix, suffices } => forall|k: int|
            0 <= k < suffices@.len() ==> single_import_spec(env, path_view(prefix@) + path_view((#[trigger] suffices@[k])@))
                matches Some((true, _, _)),
    }
}

/// Whether each tree that has a module path lies in a module of the environment and each of
/// its `use` declarations names declarations only.
pub open spec fn imports_found(env: &Environment, trees: Seq<AbstractSyntaxTree>, paths: Seq<Vec<Ident>>) -> bool {
    forall|t: int|
        0 <= t < trees.len() && t < paths.len() ==> (forall|j: int|
            0 <= j < trees[t].compilation_unit.declarations@.len() ==> match #[trigger] trees[t].compilation_unit.declarations@[j] {
                Declaration::Import(import) => imports_declarations(env, import),
                _ => true,
            }) && module_at(env.scopes@, GLOBAL_SCOPE, path_view((#[trigger] paths[t])@)) is Some
}

/// Whether no tree that has a module path imports anything, and each such path names a
/// module of the environment.
pub open spec fn imports_nothing(env: &Environment, trees: Seq<AbstractSyntaxTree>, paths: Seq<Vec<Ident>>) -> bool {
    forall|t: int|
        0 <= t < trees.len() && t < paths.len() ==> (forall|j: int|
            0 <= j < trees[t].compilation_unit.declarations@.len()
                ==> !(#[trigger] trees[t].compilation_unit.declarations@[j] is Import))
            && module_at(env.scopes@, GLOBAL_SCOPE, path_view((#[trigger] paths[t])@)) is Some
}

/// Carries out imports.
pub struct Importer;

impl Importer {
    /// Finds what every `use` of every tree names, then imports it into the module of the
    /// tree: the tree at index `i` belongs to the module `module_paths[i]`. What each `use`
    /// names is found before anything is imported. Once it succeeds, what each `use` names
    /// stands in the module of its tree.
    pub fn import_from(
        env: &mut Environment,
        syntax_trees: &Vec<AbstractSyntaxTree>,
        module_paths: &[Vec<Ident>],
    ) -> (res: Result<(), EnvError>)
        requires
            old(env).wf(),
        ensures
            final(env).wf(),
            final(env).scopes@.len() == old(env).scopes@.len(),
            modules_extended(old(env).scopes@, final(env).scopes@),
            res is Ok ==> forall|t: int|
                0 <= t < syntax_trees@.len() && t < module_paths@.len() ==> #[trigger] tree_imported(
                    old(env),
                    final(env),
                    syntax_trees@,
                    module_paths@,
                    t,
                ),
            imports_nothing(old(env), syntax_trees@, module_paths@) ==> res is Ok && *final(env) == *old(env),
            imports_found(old(env), syntax_trees@, module_paths@) ==> res is Ok,
            0 < syntax_trees@.len() && 0 < module_paths@.len()
                && module_at(old(env).scopes@, GLOBAL_SCOPE, path_view(module_paths@[0]@)) is None
                ==> (res matches Err(EnvError::ModuleNotFound(_))),
    {
        let mut importing_elements: Vec<(ScopeId, Vec<Importing>)> = Vec::new();
        let mut tree: usize = 0;
        while tree < syntax_trees.len() && tree < module_paths.len()
            invariant
                env.wf(),
                env.scopes@ == old(env).scopes@,
                *env == *old(env),
                tree <= syntax_trees@.len(),
                importing_elements@.len() == tree,
                imports_nothing(old(env), syntax_trees@, module_paths@) ==> forall|a: int|
                    0 <= a < tree ==> (#[trigger] importing_elements@[a]).1@.len() == 0,
                imports_found(old(env), syntax_trees@, module_paths@) ==> forall|a: int, m: int|
                    0 <= a < tree && 0 <= m < importing_elements@[a].1@.len() ==> (#[trigger] importing_elements@[a].1@[m]) is ExpressionOrStruct,
                tree > 0 ==> module_at(old(env).scopes@, GLOBAL_SCOPE, path_view(module_paths@[0]@)) is Some,
                forall|j: int| 0 <= j < importing_elements@.len() ==> #[trigger] importing_elements@[j].0 < env.scopes@.len()
                    && forall|m: int| 0 <= m < importing_elements@[j].1@.len() ==> Self::importing_valid(env, #[trigger] importing_elements@[j].1@[m]),
                forall|j: int| 0 <= j < importing_elements@.len() ==> #[trigger] tree_expected(
                    old(env),
                    syntax_trees@,
                    module_paths@,
                    j,
                    importing_elements@[j].0,
                    importing_elements@[j].1@,
                ),
            decreases syntax_trees@.len() - tree,
        {
            let path = module_paths[tree].as_slice();
            assert(path@ == module_paths@[tree as int]@);
            proof {
                if imports_nothing(old(env), syntax_trees@, module_paths@) {
                    assert(module_at(env.scopes@, GLOBAL_SCOPE, path_view(module_paths@[tree as int]@)) is Some);
                }
                if imports_found(old(env), syntax_trees@, module_paths@) {
                    assert(module_at(env.scopes@, GLOBAL_SCOPE, path_view(module_paths@[tree as int]@)) is Some);
                }
            }
            let target_scope_id = match env.find_module(path) {
                Some(s) => s,
                None => {
                    return Err(EnvError::ModuleNotFound(join_path(module_paths[tree].as_slice())));
                },
            };
            let mut elements: Vec<Importing> = Vec::new();
            let declarations = &syntax_trees[tree].compilation_unit.declarations;
            let mut i: usize = 0;
            while i < declarations.len()
                invariant
                    env.wf(),
                    env.scopes@ == old(env).scopes@,
                    *env == *old(env),
                    tree < syntax_trees@.len(),
                    tree < module_paths@.len(),
                    module_at(old(env).scopes@, GLOBAL_SCOPE, path_view(module_paths@[tree as int]@)) is Some,
                    tree > 0 ==> module_at(old(env).scopes@, GLOBAL_SCOPE, path_view(module_paths@[0]@)) is Some,
                    imports_nothing(old(env), syntax_trees@, module_paths@) ==> elements@.len() == 0,
                    imports_found(old(env), syntax_trees@, module_paths@) ==> forall|m: int|
                        0 <= m < elements@.len() ==> (#[trigger] elements@[m]) is ExpressionOrStruct,
                    declarations == syntax_trees@[tree as int].compilation_unit.declarations,
                    i <= declarations@.len(),
                    forall|m: int| 0 <= m < elements@.len() ==> Self::importing_valid(env, #[trigger] elements@[m]),
                    forall|j: int|
                        0 <= j < i ==> match #[trigger] declarations@[j] {
                            Declaration::Import(import) => import_expected(old(env), import, elements@),
                            _ => true,
                        },
                decreases declarations@.len() - i,
            {
                proof {
                    if imports_nothing(old(env), syntax_trees@, module_paths@) {
                        assert(module_at(env.scopes@, GLOBAL_SCOPE, path_view(module_paths@[tree as int]@)) is Some);
                        assert(!(syntax_trees@[tree as int].compilation_unit.declarations@[i as int] is Import));
                    }
                }
                proof {
                    if imports_found(old(env), syntax_trees@, module_paths@) {
                        match syntax_trees@[tree as int].compilation_unit.declarations@[i as int] {
                            Declaration::Import(imp) => {
                                assert(imports_declarations(old(env), imp));
                            },
                            _ => {},
                        }
                    }
                }
                match &declarations[i] {
                    Declaration::Import(import) => {
                        let mut found = Self::process_import(env, import)?;
                        let ghost before = elements@;
                        let ghost found_before = found@;
                        elements.append(&mut found);
                        proof {
                            assert(elements@ == before + found_before);
                            if imports_found(old(env), syntax_trees@, module_paths@) {
                                assert forall|m: int| 0 <= m < elements@.len() implies (#[trigger] elements@[m]) is ExpressionOrStruct by {
                                    if m >= before.len() {
                                        assert(elements@[m] == found_before[m - before.len()]);
                                    } else {
                                        assert(elements@[m] == before[m]);
                                    }
                                }
                            }
                            assert forall|m: int| 0 <= m < elements@.len() implies Self::importing_valid(env, #[trigger] elements@[m]) by {
                                if m >= before.len() {
                                    assert(elements@[m] == found_before[m - before.len()]);
                                } else {
                                    assert(elements@[m] == before[m]);
                                }
                            }
                            assert forall|j: int| 0 <= j < i + 1 implies match #[trigger] declarations@[j] {
                                Declaration::Import(import) => import_expected(old(env), import, elements@),
                                _ => true,
                            } by {
                                match declarations@[j] {
                                    Declaration::Import(imp) => {
                                        lemma_expected_append(old(env), imp, before, found_before);
                                    },
                                    _ => {},
                                }
                            }
                        }
                    },
                    _ => {},
                }
                i = i + 1;
            }
            let ghost before_push = importing_elements@;
            importing_elements.push((target_scope_id, elements));
            proof {
                if imports_found(old(env), syntax_trees@, module_paths@) {
                    assert forall|a: int, m: int|
                        0 <= a < tree + 1 && 0 <= m < importing_elements@[a].1@.len() implies (#[trigger] importing_elements@[a].1@[m]) is ExpressionOrStruct by {
                        if a < tree {
                            assert(importing_elements@[a] == before_push[a]);
                        }
                    }
                }
                assert forall|j: int| 0 <= j < importing_elements@.len() implies #[trigger] tree_expected(
                    old(env),
                    syntax_trees@,
                    module_paths@,
                    j,
                    importing_elements@[j].0,
                    importing_elements@[j].1@,
                ) by {
                    if j < before_push.len() {
                        assert(importing_elements@[j] == before_push[j]);
                    }
                }
            }
            tree = tree + 1;
        }
        let ghost collected = *env;
        let mut j: usize = 0;
        while j < importing_elements.len()
            invariant
                env.wf(),
                env.scopes@.len() == old(env).scopes@.len(),
                modules_extended(old(env).scopes@, env.scopes@),
                imports_kept(&collected, env),
                collected.scopes@ == old(env).scopes@,
                j <= importing_elements@.len(),
                imports_nothing(old(env), syntax_trees@, module_paths@) ==> *env == *old(env) && forall|a: int|
                    0 <= a < importing_elements@.len() ==> (#[trigger] importing_elements@[a]).1@.len() == 0,
                imports_found(old(env), syntax_trees@, module_paths@) ==> forall|a: int, m: int|
                    0 <= a < importing_elements@.len() && 0 <= m < importing_elements@[a].1@.len() ==> (#[trigger] importing_elements@[a].1@[m]) is ExpressionOrStruct,
                0 < syntax_trees@.len() && 0 < module_paths@.len()
                    ==> module_at(old(env).scopes@, GLOBAL_SCOPE, path_view(module_paths@[0]@)) is Some,
                forall|a: int| 0 <= a < importing_elements@.len() ==> #[trigger] importing_elements@[a].0 < env.scopes@.len()
                    && forall|m: int| 0 <= m < importing_elements@[a].1@.len() ==> Self::importing_valid(env, #[trigger] importing_elements@[a].1@[m]),
                forall|a: int| 0 <= a < j ==> #[trigger] all_done(env, importing_elements@[a].0 as int, importing_elements@[a].1@),
            decreases importing_elements@.len() - j,
        {
            let target = importing_elements[j].0;
            let mut m: usize = 0;
            while m < importing_elements[j].1.len()
                invariant
                    env.wf(),
                    env.scopes@.len() == old(env).scopes@.len(),
                    modules_extended(old(env).scopes@, env.scopes@),
                    imports_kept(&collected, env),
                    collected.scopes@ == old(env).scopes@,
                    j < importing_elements@.len(),
                    m <= importing_elements@[j as int].1@.len(),
                    imports_nothing(old(env), syntax_trees@, module_paths@) ==> *env == *old(env) && forall|a: int|
                        0 <= a < importing_elements@.len() ==> (#[trigger] importing_elements@[a]).1@.len() == 0,
                    imports_found(old(env), syntax_trees@, module_paths@) ==> forall|a: int, m2: int|
                        0 <= a < importing_elements@.len() && 0 <= m2 < importing_elements@[a].1@.len() ==> (#[trigger] importing_elements@[a].1@[m2]) is ExpressionOrStruct,
                    0 < syntax_trees@.len() && 0 < module_paths@.len()
                        ==> module_at(old(env).scopes@, GLOBAL_SCOPE, path_view(module_paths@[0]@)) is Some,
                    target == importing_elements@[j as int].0,
                    forall|a: int| 0 <= a < importing_elements@.len() ==> #[trigger] importing_elements@[a].0 < env.scopes@.len()
                        && forall|m2: int| 0 <= m2 < importing_elements@[a].1@.len() ==> Self::importing_valid(env, #[trigger] importing_elements@[a].1@[m2]),
                    forall|a: int| 0 <= a < j ==> #[trigger] all_done(env, importing_elements@[a].0 as int, importing_elements@[a].1@),
                    forall|m2: int| 0 <= m2 < m ==> importing_done(env, target as int, #[trigger] importing_elements@[j as int].1@[m2]),
                decreases importing_elements@[j as int].1@.len() - m,
            {
                let ghost before = *env;
                proof {
                    if imports_found(old(env), syntax_trees@, module_paths@) {
                        assert(importing_elements@[j as int].1@[m as int] is ExpressionOrStruct);
                    }
                }
                Self::import_to(env, &importing_elements[j].1[m], target)?;
                proof {
                    lemma_modules_extended_trans(old(env).scopes@, before.scopes@, env.scopes@);
                    lemma_imports_kept_trans(&collected, &before, env);
                    assert forall|a: int| 0 <= a < j implies #[trigger] all_done(
                        env,
                        importing_elements@[a].0 as int,
                        importing_elements@[a].1@,
                    ) by {
                        assert forall|m2: int| 0 <= m2 < importing_elements@[a].1@.len() implies importing_done(
                            env,
                            importing_elements@[a].0 as int,
                            #[trigger] importing_elements@[a].1@[m2],
                        ) by {
                            assert(all_done(&before, importing_elements@[a].0 as int, importing_elements@[a].1@));
                            lemma_done_kept(&before, env, importing_elements@[a].0 as int, importing_elements@[a].1@[m2]);
                        }
                    }
                    assert forall|m2: int| 0 <= m2 < m + 1 implies importing_done(
                        env,
                        target as int,
                        #[trigger] importing_elements@[j as int].1@[m2],
                    ) by {
                        if m2 < m {
                            lemma_done_kept(&before, env, target as int, importing_elements@[j as int].1@[m2]);
                        }
                    }
                }
                m = m + 1;
            }
            proof {
                assert(all_done(env, importing_elements@[j as int].0 as int, importing_elements@[j as int].1@));
            }
            j = j + 1;
        }
        proof {
            assert forall|t: int|
                0 <= t < syntax_trees@.len() && t < module_paths@.len() implies #[trigger] tree_imported(
                old(env),
                env,
                syntax_trees@,
                module_paths@,
                t,
            ) by {
                assert(tree_expected(old(env), syntax_trees@, module_paths@, t, importing_elements@[t].0, importing_elements@[t].1@));
                assert(all_done(env, importing_elements@[t].0 as int, importing_elements@[t].1@));
                let target = importing_elements@[t].0;
                assert forall|i: int| 0 <= i < syntax_trees@[t].compilation_unit.declarations@.len() implies match #[trigger] syntax_trees@[t].compilation_unit.declarations@[i] {
                    Declaration::Import(import) => import_effect(old(env), env, target as int, import),
                    _ => true,
                } by {
                    match syntax_trees@[t].compilation_unit.declarations@[i] {
                        Declaration::Import(imp) => {
                            lemma_expected_done(old(env), env, target as int, imp, importing_elements@[t].1@);
                        },
                        _ => {},
                    }
                }
            }
        }
        Ok(())
    }

    /// The scope that an importing refers to exists.
    pub open spec fn importing_valid(env: &Environment, importing: Importing) -> bool {
        match importing {
            Importing::Wildcard(s, _) => s < env.scopes@.len(),
            Importing::Module(s, _) => s < env.scopes@.len(),
            Importing::ExpressionOrStruct(_, _) => true,
        }
    }

    /// What one `use` declaration names.
    fn process_import(env: &Environment, import: &Import) -> (res: Result<Vec<Importing>, EnvError>)
        requires
            env.wf(),
        ensures
            res matches Ok(v) ==> forall|m: int| 0 <= m < v@.len() ==> Self::importing_valid(env, #[trigger] v@[m]),
            res matches Ok(v) ==> import_expected(env, *import, v@),
            res is Ok <==> import_resolvable(env, *import),
            imports_declarations(env, *import) ==> (res matches Ok(v) && forall|m: int|
                0 <= m < v@.len() ==> (#[trigger] v@[m]) is ExpressionOrStruct),
            res matches Ok(v) ==> v@.len() == match *import {
                Import::Multiple { suffices, .. } => suffices@.len(),
                _ => 1,
            },
    {
        match import {
            Import::Single(name) => {
                let found = Self::process_single_import(env, name.as_slice())?;
                let v = vec![found];
                assert(realizes_single(env, path_view(name@), v@[0]));
                Ok(v)
            },
            Import::Wildcard(module) => {
                let found = Self::process_wildcard_import(env, module.as_slice())?;
                let v = vec![found];
                assert(v@[0] == found);
                Ok(v)
            },
            Import::Multiple { prefix, suffices } => {
                let mut out: Vec<Importing> = Vec::new();
                let mut i: usize = 0;
                while i < suffices.len()
                    invariant
                        env.wf(),
                        i <= suffices@.len(),
                        out@.len() == i,
                        *import == (Import::Multiple { prefix: *prefix, suffices: *suffices }),
                        forall|k: int|
                            0 <= k < i ==> single_import_spec(env, path_view(prefix@) + path_view((#[trigger] suffices@[k])@))
                                is Some,
                        forall|m: int| 0 <= m < out@.len() ==> Self::importing_valid(env, #[trigger] out@[m]),
                        forall|k: int|
                            0 <= k < i ==> realized_in(env, path_view(prefix@) + path_view((#[trigger] suffices@[k])@), out@),
                        imports_declarations(env, *import) ==> forall|m: int| 0 <= m < out@.len() ==> (#[trigger] out@[m]) is ExpressionOrStruct,
                    decreases suffices@.len() - i,
                {
                    proof {
                        if imports_declarations(env, *import) {
                            assert(single_import_spec(env, path_view(prefix@) + path_view(suffices@[i as int]@)) matches Some((true, _, _)));
                        }
                    }
                    let found = Self::process_multiple_import(env, prefix.as_slice(), suffices[i].as_slice())?;
                    let ghost before = out@;
                    out.push(found);
                    proof {
                        assert forall|k: int| 0 <= k < i + 1 implies realized_in(
                            env,
                            path_view(prefix@) + path_view((#[trigger] suffices@[k])@),
                            out@,
                        ) by {
                            lemma_realized_append(env, path_view(prefix@) + path_view(suffices@[k]@), before, seq![found]);
                            assert(before + seq![found] =~= out@);
                            if k == i {
                                assert(seq![found][0] == found);
                                assert(realized_in(env, path_view(prefix@) + path_view(suffices@[k]@), seq![found]));
                            }
                        }
                    }
                    i = i + 1;
                }
                Ok(out)
            },
        }
    }

    /// `use module.*`: the scope of the module.
    fn process_wildcard_import(env: &Environment, module: &[Ident]) -> (res: Result<Importing, EnvError>)
        requires
            env.wf(),
        ensures
            res matches Ok(i) ==> Self::importing_valid(env, i),
            match res {
                Ok(Importing::Wildcard(s, p)) => module_at(env.scopes@, GLOBAL_SCOPE, path_view(module@)) == Some(s)
                    && path_view(p@) == path_view(module@),
                Ok(_) => false,
                Err(e) => module_at(env.scopes@, GLOBAL_SCOPE, path_view(module@)) is None && e is ModuleNotFound,
            },
    {
        match env.find_module(module) {
            Some(source_scope_id) => Ok(Importing::Wildcard(source_scope_id, copy_path(module))),
            None => Err(EnvError::ModuleNotFound(join_path(module))),
        }
    }

    /// `use prefix.{ suffix }`: what `prefix.suffix` names.
    fn process_multiple_import(env: &Environment, prefix: &[Ident], suffix: &[Ident]) -> (res: Result<Importing, EnvError>)
        requires
            env.wf(),
        ensures
            res matches Ok(i) ==> Self::importing_valid(env, i),
            res matches Ok(i) ==> realizes_single(env, path_view(prefix@) + path_view(suffix@), i),
            match res {
                Ok(Importing::ExpressionOrStruct(d, n)) => single_import_spec(env, path_view(prefix@) + path_view(suffix@))
                    == Some((true, d, 0usize)) && n@ == (path_view(prefix@) + path_view(suffix@)).last(),
                Ok(Importing::Module(m, n)) => single_import_spec(env, path_view(prefix@) + path_view(suffix@))
                    == Some((false, d_any(), m)) && n@ == (path_view(prefix@) + path_view(suffix@)).last(),
                Ok(Importing::Wildcard(..)) => false,
                Err(_) => single_import_spec(env, path_view(prefix@) + path_view(suffix@)) is None,
            },
    {
        let mut full = copy_path(prefix);
        let mut rest = copy_path(suffix);
        let ghost first = full@;
        let ghost second = rest@;
        full.append(&mut rest);
        proof {
            assert(full@ == first + second);
            assert(path_view(full@) =~= path_view(first) + path_view(second));
        }
        Self::process_single_import(env, full.as_slice())
    }

    /// `use path`: the declaration, or else the module, that the last component names in the
    /// module that the other components lead to; an error where there is neither.
    pub fn process_single_import(env: &Environment, import: &[Ident]) -> (res: Result<Importing, EnvError>)
        requires
            env.wf(),
        ensures
            res matches Ok(i) ==> Self::importing_valid(env, i),
            match res {
                Ok(Importing::ExpressionOrStruct(d, n)) => single_import_spec(env, path_view(import@)) == Some((true, d, 0usize))
                    && n@ == path_view(import@).last(),
                Ok(Importing::Module(m, n)) => single_import_spec(env, path_view(import@)) == Some((false, d_any(), m))
                    && n@ == path_view(import@).last(),
                Ok(Importing::Wildcard(..)) => false,
                Err(_) => single_import_spec(env, path_view(import@)) is None,
            },
    {
        let ghost p = path_view(import@);
        let n = import.len();
        if n == 0 {
            return Err(EnvError::UnknownImport(Vec::new()));
        }
        let mod_path = crate::names::copy_path_prefix(import, n - 1);
        proof {
            assert(p.drop_last() =~= path_view(mod_path@));
        }
        let last_element = &import[n - 1];
        let scope_id = match env.find_module(mod_path.as_slice()) {
            Some(s) => s,
            None => {
                return Err(EnvError::ModuleNotFound(join_path(mod_path.as_slice())));
            },
        };
        let scope = env.get_scope(scope_id);
        match scope.name_spaces.declared.get(last_element) {
            Some(declared) => Ok(Importing::ExpressionOrStruct(*declared, copy_bytes(last_element.as_slice()))),
            None => match scope.name_spaces.modules.get(last_element) {
                Some(module_scope) => {
                    proof {
                        scope.name_spaces.modules.lemma_get_is_entry(last_element@);
                    }
                    Ok(Importing::Module(*module_scope, copy_bytes(last_element.as_slice())))
                },
                None => Err(EnvError::UnknownImport(join_path(import))),
            },
        }
    }

    /// Brings what one import names into the target scope: a wildcard import fails where the
    /// module is imported already, a module import where the name stands for a module
    /// already; a declaration is imported only where the name stands for no declaration yet.
    pub fn import_to(env: &mut Environment, importing: &Importing, target_scope: ScopeId) -> (res: Result<(), EnvError>)
        requires
            old(env).wf(),
            target_scope < old(env).scopes@.len(),
            Self::importing_valid(old(env), *importing),
        ensures
            final(env).wf(),
            final(env).scopes@.len() == old(env).scopes@.len(),
            modules_extended(old(env).scopes@, final(env).scopes@),
            imports_kept(old(env), final(env)),
            res is Ok ==> importing_done(final(env), target_scope as int, *importing),
            match *importing {
                Importing::Wildcard(s, _) => {
                    &&& res is Ok <==> !old(env).scopes@[target_scope as int].name_spaces.wildcard_imports@.contains(s)
                    &&& res is Ok ==> final(env).scopes@[target_scope as int].name_spaces.wildcard_imports@
                        == old(env).scopes@[target_scope as int].name_spaces.wildcard_imports@.push(s)
                },
                Importing::Module(s, n) => {
                    &&& res is Ok <==> old(env).scopes@[target_scope as int].name_spaces.modules.get_spec(n@) is None
                    &&& res is Ok ==> final(env).scopes@[target_scope as int].name_spaces.modules.get_spec(n@) == Some(s)
                },
                Importing::ExpressionOrStruct(d, n) => {
                    &&& res is Ok
                    &&& final(env).scopes@[target_scope as int].name_spaces.declared.get_spec(n@)
                        == match old(env).scopes@[target_scope as int].name_spaces.declared.get_spec(n@) {
                        Some(w) => Some(w),
                        None => Some(d),
                    }
                },
            },
    {
        match importing {
            Importing::Wildcard(scope_id, name) => {
                let ghost before = env.scopes@;
                let added = env.add_wildcard_import(target_scope, *scope_id);
                proof {
                    assert forall|a: int, k: Seq<u8>|
                        0 <= a < before.len() && (#[trigger] before[a].name_spaces.modules.get_spec(k)) is Some
                        implies env.scopes@[a].name_spaces.modules.get_spec(k) == before[a].name_spaces.modules.get_spec(k) by {
                        if a != target_scope {
                            assert(env.scopes@[a] == before[a]);
                        }
                    }
                    assert forall|a: int, k: Seq<u8>|
                        0 <= a < before.len() && (#[trigger] before[a].name_spaces.declared.get_spec(k)) is Some
                        implies env.scopes@[a].name_spaces.declared.get_spec(k) is Some by {
                        if a != target_scope {
                            assert(env.scopes@[a] == before[a]);
                        }
                    }
                    assert forall|a: int, w: ScopeId|
                        0 <= a < before.len() && (#[trigger] before[a].name_spaces.wildcard_imports@.contains(w))
                        implies env.scopes@[a].name_spaces.wildcard_imports@.contains(w) by {
                        if a != target_scope {
                            assert(env.scopes@[a] == before[a]);
                        } else {
                            let j = choose|j: int| 0 <= j < before[a].name_spaces.wildcard_imports@.len()
                                && before[a].name_spaces.wildcard_imports@[j] == w;
                            assert(env.scopes@[a].name_spaces.wildcard_imports@[j] == w);
                        }
                    }
                }
                if !added {
                    return Err(EnvError::ModuleAlreadyImported(join_path(name.as_slice())));
                }
                proof {
                    let w = env.scopes@[target_scope as int].name_spaces.wildcard_imports@;
                    assert(w[w.len() - 1] == *scope_id);
                }
                Ok(())
            },
            Importing::Module(scope_id, module_name) => {
                if env.scopes[target_scope].name_spaces.modules.contains_key(module_name) {
                    return Err(EnvError::ModuleAlreadyImported(copy_bytes(module_name.as_slice())));
                }
                let ghost before = env.scopes@;
                env.add_module(target_scope, copy_bytes(module_name.as_slice()), *scope_id);
                proof {
                    assert forall|a: int, k: Seq<u8>|
                        0 <= a < before.len() && (#[trigger] before[a].name_spaces.modules.get_spec(k)) is Some
                        implies env.scopes@[a].name_spaces.modules.get_spec(k) == before[a].name_spaces.modules.get_spec(k) by {
                        if a != target_scope {
                            assert(env.scopes@[a] == before[a]);
                        }
                    }
                    assert forall|a: int, k: Seq<u8>|
                        0 <= a < before.len() && (#[trigger] before[a].name_spaces.declared.get_spec(k)) is Some
                        implies env.scopes@[a].name_spaces.declared.get_spec(k) is Some by {
                        if a != target_scope {
                            assert(env.scopes@[a] == before[a]);
                        }
                    }
                    assert forall|a: int, w: ScopeId|
                        0 <= a < before.len() && (#[trigger] before[a].name_spaces.wildcard_imports@.contains(w))
                        implies env.scopes@[a].name_spaces.wildcard_imports@.contains(w) by {
                        if a != target_scope {
                            assert(env.scopes@[a] == before[a]);
                        } else {
                            let j = choose|j: int| 0 <= j < before[a].name_spaces.wildcard_imports@.len()
                                && before[a].name_spaces.wildcard_imports@[j] == w;
                            assert(env.scopes@[a].name_spaces.wildcard_imports@[j] == w);
                        }
                    }
                }
                Ok(())
            },
            Importing::ExpressionOrStruct(declared, name) => {
                let ghost before = env.scopes@;
                env.declare_if_absent(target_scope, copy_bytes(name.as_slice()), *declared);
                proof {
                    assert forall|a: int, k: Seq<u8>|
                        0 <= a < before.len() && (#[trigger] before[a].name_spaces.modules.get_spec(k)) is Some
                        implies env.scopes@[a].name_spaces.modules.get_spec(k) == before[a].name_spaces.modules.get_spec(k) by {
                        if a != target_scope {
                            assert(env.scopes@[a] == before[a]);
                        }
                    }
                    assert forall|a: int, k: Seq<u8>|
                        0 <= a < before.len() && (#[trigger] before[a].name_spaces.declared.get_spec(k)) is Some
                        implies env.scopes@[a].name_spaces.declared.get_spec(k) is Some by {
                        if a != target_scope {
                            assert(env.scopes@[a] == before[a]);
                        }
                    }
                    assert forall|a: int, w: ScopeId|
                        0 <= a < before.len() && (#[trigger] before[a].name_spaces.wildcard_imports@.contains(w))
                        implies env.scopes@[a].name_spaces.wildcard_imports@.contains(w) by {
                        if a != target_scope {
                            assert(env.scopes@[a] == before[a]);
                        } else {
                            let j = choose|j: int| 0 <= j < before[a].name_spaces.wildcard_imports@.len()
                                && before[a].name_spaces.wildcard_imports@[j] == w;
                            assert(env.scopes@[a].name_spaces.wildcard_imports@[j] == w);
                        }
                    }
                }
                Ok(())
            },
        }
    }
}

} // verus!
