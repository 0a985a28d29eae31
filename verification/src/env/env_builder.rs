//! Builds the environment of a program in stages: modules, scopes, names, checks.
//!
//! Each stage runs only while no stage before it failed; the first failure is kept and
//! `build` returns it.
use crate::ast::{AbstractSyntaxTree, GLOBAL_SCOPE};
use crate::env::checks::struct_hierarchy::{declares_self_containing_struct, flat_structs, hierarchy_acyclic, hierarchy_checkable, StructHierarchyChecker};
use crate::env::construction::module_operations::{module_of_some_path, no_modules_yet, prefixes_found, ModuleAdder};
use crate::env::construction::scope_operations::{marked_in_module, opening_block_marked, scopes_grown, trees_generate_freely, ScopeGenerator};
use crate::env::declaration_resolution;
use crate::env::environment::{module_at, modules_extended, Environment};
use crate::env::error::EnvError;
use crate::env::declaration_resolution::declaration_operations::{collected, no_names, tree_names, trees_names};
use crate::env::declaration_resolution::trees_empty;
use crate::env::name_resolution;
use crate::env::name_resolution::names_recorded;
use crate::env::name_resolution::type_checking::type_checker::{declaration_checked, defines_constant_cycle, entry_found, entry_refusal, program_checks_simply, TypeChecker};
use crate::names::{copy_path, path_view, Ident};
use vstd::prelude::*;

verus! {

/// The separator of the components of a file path.
pub const PATH_SEPARATOR: u8 = 47u8;

/// The parts of the bytes between separators, in their order: one more than there are
/// separators.
pub open spec fn split_on(s: Seq<u8>, sep: u8) -> Seq<Seq<u8>>
    decreases s.len(),
{
    if s.len() == 0 {
        seq![Seq::<u8>::empty()]
    } else if s.last() == sep {
        split_on(s.drop_last(), sep).push(Seq::<u8>::empty())
    } else {
        let p = split_on(s.drop_last(), sep);
        p.update(p.len() - 1, p.last().push(s.last()))
    }
}

/// What comes before the last separator; nothing where there is none.
pub open spec fn parent_part(s: Seq<u8>, sep: u8) -> Seq<u8>
    decreases s.len(),
{
    if s.len() == 0 {
        Seq::<u8>::empty()
    } else if s.last() == sep {
        s.drop_last()
    } else {
        parent_part(s.drop_last(), sep)
    }
}

proof fn lemma_no_declarations_no_names(trees: Seq<AbstractSyntaxTree>, n: int)
    requires
        n <= trees.len(),
        forall|t: int| 0 <= t < n ==> (#[trigger] trees[t]).compilation_unit.declarations@.len() == 0,
    ensures
        trees_names(trees, n) == no_names(),
    decreases n,
{
    if n > 0 {
        lemma_no_declarations_no_names(trees, n - 1);
        assert(trees[n - 1].compilation_unit.declarations@.len() == 0);
        assert(tree_names(trees, n - 1) == no_names());
        assert(trees_names(trees, n) =~~= no_names());
    }
}

/// The folder of a project that its source paths start from: `src`.
pub open spec fn source_folder() -> Seq<u8> {
    seq![115u8, 114u8, 99u8]
}

/// The module path of a source file: the directories it lies in, one module each, below
/// the source folder where the path starts with it. So `src/models/tree/tree.ds` is in
/// the module `models.tree`, `std/essential/render.ds` in `std.essential`, and
/// `main.ds` in the global scope.
pub open spec fn module_path_of(file_name: Seq<u8>) -> Seq<Seq<u8>> {
    let parent = parent_part(file_name, PATH_SEPARATOR);
    let directories = if parent.len() == 0 {
        Seq::empty()
    } else {
        split_on(parent, PATH_SEPARATOR)
    };
    if directories.len() > 0 && directories[0] == source_folder() {
        directories.drop_first()
    } else {
        directories
    }
}

fn is_source_folder(part: &Vec<u8>) -> (r: bool)
    ensures
        r == (part@ == source_folder()),
{
    let r = part.len() == 3 && part[0] == 115u8 && part[1] == 114u8 && part[2] == 99u8;
    proof {
        if r {
            assert(part@ =~= source_folder());
        }
    }
    r
}

/// The module paths, each as the bytes of its components.
pub open spec fn paths_view(s: Seq<Vec<Ident>>) -> Seq<Seq<Seq<u8>>> {
    Seq::new(s.len(), |i: int| path_view(s[i]@))
}

proof fn lemma_split_on_sep(s: Seq<u8>, sep: u8, i: int)
    requires
        0 <= i < s.len(),
        s[i] == sep,
    ensures
        split_on(s.take(i + 1), sep) == split_on(s.take(i), sep).push(Seq::<u8>::empty()),
{
    assert(s.take(i + 1).drop_last() =~= s.take(i));
}

proof fn lemma_split_on_other(s: Seq<u8>, sep: u8, i: int)
    requires
        0 <= i < s.len(),
        s[i] != sep,
    ensures
        split_on(s.take(i + 1), sep) == ({
            let p = split_on(s.take(i), sep);
            p.update(p.len() - 1, p.last().push(s[i]))
        }),
{
    assert(s.take(i + 1).drop_last() =~= s.take(i));
}

proof fn lemma_split_on_not_empty(s: Seq<u8>, sep: u8)
    ensures
        split_on(s, sep).len() >= 1,
    decreases s.len(),
{
    if s.len() > 0 {
        lemma_split_on_not_empty(s.drop_last(), sep);
    }
}

/// The parts of the bytes between separators.
fn split_bytes(s: &[u8], sep: u8) -> (parts: Vec<Ident>)
    ensures
        path_view(parts@) == split_on(s@, sep),
{
    let mut parts: Vec<Ident> = Vec::new();
    let mut current: Vec<u8> = Vec::new();
    let mut i: usize = 0;
    proof {
        assert(s@.take(0) =~= Seq::<u8>::empty());
        assert(path_view(parts@).push(current@) =~= split_on(s@.take(0), sep));
    }
    while i < s.len()
        invariant
            i <= s@.len(),
            path_view(parts@).push(current@) == split_on(s@.take(i as int), sep),
        decreases s@.len() - i,
    {
        let b = s[i];
        proof {
            lemma_split_on_not_empty(s@.take(i as int), sep);
        }
        if b == sep {
            proof {
                lemma_split_on_sep(s@, sep, i as int);
            }
            let ghost before = path_view(parts@);
            let mut finished: Vec<u8> = Vec::new();
            std::mem::swap(&mut finished, &mut current);
            parts.push(finished);
            proof {
                assert(path_view(parts@) =~= before.push(finished@));
                assert(path_view(parts@).push(current@) =~= split_on(s@.take(i + 1), sep));
            }
        } else {
            proof {
                lemma_split_on_other(s@, sep, i as int);
            }
            let ghost before = current@;
            current.push(b);
            proof {
                assert(path_view(parts@).push(current@) =~= split_on(s@.take(i + 1), sep));
            }
        }
        i = i + 1;
    }
    let ghost before = path_view(parts@);
    parts.push(current);
    proof {
        assert(s@.take(s@.len() as int) =~= s@);
        assert(path_view(parts@) =~= before.push(parts@[parts@.len() - 1]@));
    }
    parts
}

/// What comes before the last separator.
fn parent_bytes(s: &[u8], sep: u8) -> (r: Vec<u8>)
    ensures
        r@ == parent_part(s@, sep),
{
    let mut i: usize = s.len();
    proof {
        assert(s@.take(s@.len() as int) =~= s@);
    }
    while i > 0 && s[i - 1] != sep
        invariant
            i <= s@.len(),
            parent_part(s@, sep) == parent_part(s@.take(i as int), sep),
        decreases i,
    {
        proof {
            assert(s@.take(i as int).drop_last() =~= s@.take(i - 1));
        }
        i = i - 1;
    }
    let mut r: Vec<u8> = Vec::new();
    if i > 0 {
        proof {
            assert(s@.take(i as int).drop_last() =~= s@.take(i - 1));
        }
        let mut j: usize = 0;
        while j < i - 1
            invariant
                0 < i <= s@.len(),
                j <= i - 1,
                r@ == s@.take(j as int),
            decreases i - 1 - j,
        {
            r.push(s[j]);
            proof {
                assert(r@ =~= s@.take(j + 1));
            }
            j = j + 1;
        }
    } else {
        proof {
            assert(s@.take(0) =~= Seq::<u8>::empty());
        }
    }
    r
}

/// Builds the environment of a program; remembers the first stage that failed.
pub struct EnvironmentBuilder {
    pub environment: Environment,
    /// The module of each syntax tree, in the order of the trees.
    pub module_paths: Vec<Vec<Ident>>,
    /// Why a stage failed, once one did.
    pub error: Option<EnvError>,
    /// Whether validation asks the program for its entry: a constant `Main` whose value is
    /// a `std.essential.Render`.
    pub check_entry: bool,
}

impl EnvironmentBuilder {
    /// The environment is well formed.
    pub open spec fn wf(&self) -> bool {
        self.environment.wf()
    }

    /// A builder with only the global scope and no module.
    pub fn new() -> (b: Self)
        ensures
            b.wf(),
            b.error is None,
            b.check_entry,
            b.module_paths@.len() == 0,
            b.environment.scopes@.len() == 1,
            b.environment.scopes@[0].name_spaces.modules.entries@.len() == 0,
            b.environment.scopes@[0].name_spaces.declared.entries@.len() == 0,
            b.environment.scopes@[0].name_spaces.wildcard_imports@.len() == 0,
            b.environment.resolved_names.entries@.len() == 0,
            no_modules_yet(&b.environment),
    {
        let environment = Environment::new();
        assert forall|k: Seq<u8>| (#[trigger] environment.scopes@[GLOBAL_SCOPE as int].name_spaces.modules.get_spec(k)) is None by {
            assert(environment.scopes@[0].name_spaces.modules.entries_view().len() == 0);
        }
        EnvironmentBuilder { environment, module_paths: Vec::new(), error: None, check_entry: true }
    }

    /// The module path of a source file: the directories it lies in, below the source
    /// folder `src` where the path starts with it. A file that lies in no directory belongs
    /// to the global scope.
    pub fn convert_to_module(file_name: &[u8]) -> (path: Vec<Ident>)
        ensures
            path_view(path@) == module_path_of(file_name@),
    {
        let parent = parent_bytes(file_name, PATH_SEPARATOR);
        let mut path = if parent.len() == 0 {
            Vec::new()
        } else {
            split_bytes(parent.as_slice(), PATH_SEPARATOR)
        };
        proof {
            if parent.len() == 0 {
                assert(path_view(path@) =~= Seq::<Seq<u8>>::empty());
            }
        }
        if path.len() > 0 && is_source_folder(&path[0]) {
            let ghost before = path@;
            path.remove(0);
            proof {
                assert(path_view(before)[0] == before[0]@);
                assert(path_view(path@) =~= path_view(before).drop_first());
            }
        } else {
            proof {
                if path_view(path@).len() > 0 {
                    assert(path_view(path@)[0] == path@[0]@);
                }
            }
        }
        path
    }

    /// Adds the modules of the source files, each under the directories of its path.
    pub fn add_modules_from_paths(self, paths: &[String]) -> (b: Self)
        requires
            self.wf(),
        ensures
            b.wf(),
            b.check_entry == self.check_entry,
            modules_extended(self.environment.scopes@, b.environment.scopes@),
            self.error is Some ==> b.error == self.error && paths_view(b.module_paths@) == paths_view(self.module_paths@),
            self.error is None ==> paths_view(b.module_paths@) == paths_view(self.module_paths@) + Seq::new(
                paths@.len(),
                |i: int| module_path_of(vstd::utf8::encode_utf8(paths@[i]@)),
            ),
            b.error is None ==> forall|i: int|
                0 <= i < b.module_paths@.len() ==> (#[trigger] module_at(
                    b.environment.scopes@,
                    GLOBAL_SCOPE,
                    paths_view(b.module_paths@)[i],
                )) is Some,
            self.error is None && no_modules_yet(&self.environment) ==> b.error is None,
    {
        let mut converted: Vec<Vec<Ident>> = Vec::new();
        let mut i: usize = 0;
        while i < paths.len()
            invariant
                i <= paths@.len(),
                paths_view(converted@) == Seq::new(i as nat, |j: int| module_path_of(vstd::utf8::encode_utf8(paths@[j]@))),
            decreases paths@.len() - i,
        {
            let text = paths[i].as_str();
            let bytes = text.as_bytes();
            assert(bytes@ == vstd::utf8::encode_utf8(paths@[i as int]@));
            let path = Self::convert_to_module(bytes);
            let ghost before = paths_view(converted@);
            converted.push(path);
            proof {
                assert(paths_view(converted@) =~= before.push(module_path_of(vstd::utf8::encode_utf8(paths@[i as int]@))));
                assert(paths_view(converted@) =~= Seq::new((i + 1) as nat, |j: int| module_path_of(vstd::utf8::encode_utf8(paths@[j]@))));
            }
            i = i + 1;
        }
        self.add_modules(converted.as_slice())
    }

    /// Adds the modules of the given paths: the tree at index `i` will belong to the module
    /// of the `i`-th path.
    pub fn add_modules(self, module_paths: &[Vec<Ident>]) -> (b: Self)
        requires
            self.wf(),
        ensures
            b.wf(),
            b.check_entry == self.check_entry,
            modules_extended(self.environment.scopes@, b.environment.scopes@),
            self.error is Some ==> b.error == self.error && paths_view(b.module_paths@) == paths_view(self.module_paths@),
            self.error is None ==> paths_view(b.module_paths@) == paths_view(self.module_paths@) + paths_view(module_paths@),
            b.error is None ==> forall|i: int|
                0 <= i < b.module_paths@.len() ==> (#[trigger] module_at(
                    b.environment.scopes@,
                    GLOBAL_SCOPE,
                    paths_view(b.module_paths@)[i],
                )) is Some,
            self.error is None && no_modules_yet(&self.environment) ==> b.error is None,
            forall|j: int|
                self.environment.scopes@.len() <= j < b.environment.scopes@.len() ==> #[trigger] module_of_some_path(
                    b.environment.scopes@,
                    b.module_paths@,
                    j,
                ),
            b.error is None ==> forall|i: int|
                0 <= i < b.module_paths@.len() ==> prefixes_found(b.environment.scopes@, path_view((#[trigger] b.module_paths@[i])@)),
    {
        let EnvironmentBuilder { mut environment, module_paths: paths, error, check_entry } = self;
        let mut paths = paths;
        if error.is_some() {
            return EnvironmentBuilder { environment, module_paths: paths, error, check_entry };
        }
        let ghost start = paths_view(paths@);
        let mut i: usize = 0;
        while i < module_paths.len()
            invariant
                i <= module_paths@.len(),
                paths_view(paths@) == start + paths_view(module_paths@).take(i as int),
            decreases module_paths@.len() - i,
        {
            let copied = copy_path(module_paths[i].as_slice());
            let ghost before = paths_view(paths@);
            paths.push(copied);
            proof {
                assert(paths_view(paths@) =~= before.push(path_view(module_paths@[i as int]@)));
                assert(paths_view(module_paths@).take(i + 1) =~= paths_view(module_paths@).take(i as int).push(
                    path_view(module_paths@[i as int]@),
                ));
            }
            i = i + 1;
        }
        proof {
            assert(paths_view(module_paths@).take(module_paths@.len() as int) =~= paths_view(module_paths@));
        }
        let result = ModuleAdder::add_modules(&mut environment, paths.as_slice());
        let error = match result {
            Ok(()) => None,
            Err(e) => Some(e),
        };
        proof {
            if error is None {
                assert forall|i: int| 0 <= i < paths@.len() implies (#[trigger] module_at(
                    environment.scopes@,
                    GLOBAL_SCOPE,
                    paths_view(paths@)[i],
                )) is Some by {
                    assert(paths_view(paths@)[i] == path_view(paths@[i]@));
                }
            }
        }
        EnvironmentBuilder { environment, module_paths: paths, error, check_entry }
    }

    /// Creates the scopes of blocks and struct bodies and marks on the trees the scope that
    /// each name is used in.
    pub fn generate_scopes(self, syntax_trees: &mut Vec<AbstractSyntaxTree>) -> (b: Self)
        requires
            self.wf(),
        ensures
            b.wf(),
            b.check_entry == self.check_entry,
            modules_extended(self.environment.scopes@, b.environment.scopes@),
            paths_view(b.module_paths@) == paths_view(self.module_paths@),
            final(syntax_trees)@.len() == old(syntax_trees)@.len(),
            forall|t: int|
                0 <= t < old(syntax_trees)@.len() ==> (#[trigger] final(syntax_trees)@[t]).compilation_unit == old(
                    syntax_trees,
                )@[t].compilation_unit,
            self.error is Some ==> b.error == self.error && b.environment == self.environment
                && final(syntax_trees)@ == old(syntax_trees)@,
            self.error is None ==> scopes_grown(&self.environment, &b.environment),
            b.error is None ==> forall|t: int|
                0 <= t < old(syntax_trees)@.len() && t < self.module_paths@.len() ==> marked_in_module(
                    #[trigger] final(syntax_trees)@[t],
                    b.environment.scopes@,
                    path_view(self.module_paths@[t]@),
                ),
            self.error is None && trees_generate_freely(&self.environment, old(syntax_trees)@, self.module_paths@)
                ==> b.error is None,
            self.error is None && b.error is None && old(syntax_trees)@.len() == 1 && self.module_paths@.len() >= 1
                ==> opening_block_marked(old(syntax_trees)@[0], final(syntax_trees)@[0], self.environment.scopes@.len()),
    {
        let EnvironmentBuilder { mut environment, module_paths, error, check_entry } = self;
        if error.is_some() {
            return EnvironmentBuilder { environment, module_paths, error, check_entry };
        }
        let error = match ScopeGenerator::generate(&mut environment, syntax_trees, module_paths.as_slice()) {
            Ok(()) => None,
            Err(e) => Some(e),
        };
        EnvironmentBuilder { environment, module_paths, error, check_entry }
    }

    /// Declares what the trees declare, imports what they import, then records what each
    /// name they use stands for.
    pub fn resolve_names(self, syntax_trees: &Vec<AbstractSyntaxTree>) -> (b: Self)
        requires
            self.wf(),
        ensures
            b.wf(),
            b.check_entry == self.check_entry,
            b.environment.scopes@.len() == self.environment.scopes@.len(),
            modules_extended(self.environment.scopes@, b.environment.scopes@),
            paths_view(b.module_paths@) == paths_view(self.module_paths@),
            self.error is Some ==> b.error == self.error && b.environment == self.environment,
            b.error is None ==> names_recorded(
                &b.environment,
                trees_names(
                    syntax_trees@,
                    if syntax_trees@.len() < self.module_paths@.len() {
                        syntax_trees@.len() as int
                    } else {
                        self.module_paths@.len() as int
                    },
                ),
            ),
            self.error is None && trees_empty(&self.environment, syntax_trees@, self.module_paths@) ==> b.error is None,
    {
        let EnvironmentBuilder { mut environment, module_paths, error, check_entry } = self;
        if error.is_some() {
            return EnvironmentBuilder { environment, module_paths, error, check_entry };
        }
        let ghost empty = trees_empty(&environment, syntax_trees@, module_paths@);
        let ghost n = if syntax_trees@.len() < module_paths@.len() {
            syntax_trees@.len() as int
        } else {
            module_paths@.len() as int
        };
        let error = match declaration_resolution::resolve(&mut environment, syntax_trees, module_paths.as_slice()) {
            Ok(unresolved) => {
                proof {
                    if empty {
                        lemma_no_declarations_no_names(syntax_trees@, n);
                        assert(collected(&unresolved).0.len() == unresolved.type_names@.len());
                        assert(collected(&unresolved).1.len() == unresolved.expression_names@.len());
                    }
                }
                match name_resolution::resolve(&mut environment, unresolved) {
                    Ok(()) => None,
                    Err(e) => Some(e),
                }
            },
            Err(e) => Some(e),
        };
        EnvironmentBuilder { environment, module_paths, error, check_entry }
    }

    /// The same builder, whose validation does not ask the program for an entry.
    pub fn without_entry_check(self) -> (b: Self)
        ensures
            b.environment == self.environment,
            b.module_paths == self.module_paths,
            b.error == self.error,
            !b.check_entry,
    {
        EnvironmentBuilder { environment: self.environment, module_paths: self.module_paths, error: self.error, check_entry: false }
    }

    /// Checks the entry of the program, unless asked not to, then the types of the
    /// declarations, then the hierarchy of the structs.
    pub fn validate(self, syntax_trees: &Vec<AbstractSyntaxTree>) -> (b: Self)
        requires
            self.wf(),
        ensures
            b.wf(),
            b.environment == self.environment,
            paths_view(b.module_paths@) == paths_view(self.module_paths@),
            self.error is Some ==> b.error == self.error,
            b.error is None ==> forall|t: int, i: int|
                0 <= t < syntax_trees@.len() && 0 <= i < syntax_trees@[t].compilation_unit.declarations@.len()
                    ==> declaration_checked(
                    &b.environment,
                    syntax_trees@,
                    t,
                    #[trigger] syntax_trees@[t].compilation_unit.declarations@[i],
                ),
            b.error is None ==> hierarchy_acyclic(&b.environment, syntax_trees@),
            b.check_entry == self.check_entry,
            self.error is None && self.check_entry ==> (entry_refusal(&self.environment) matches Some(e) ==> b.error == Some(e)),
            b.error is None && self.check_entry ==> entry_found(&self.environment),
            self.error is None && defines_constant_cycle(&self.environment, syntax_trees@) ==> b.error is Some,
            self.error is None && declares_self_containing_struct(&self.environment, syntax_trees@) ==> b.error is Some,
            self.error is None && !self.check_entry && program_checks_simply(&self.environment, syntax_trees@) && (flat_structs(
                &self.environment,
                syntax_trees@,
            ) || hierarchy_checkable(&self.environment, syntax_trees@)) ==> b.error is None,
    {
        let EnvironmentBuilder { environment, module_paths, error, check_entry } = self;
        if error.is_some() {
            return EnvironmentBuilder { environment, module_paths, error, check_entry };
        }
        let mut error: Option<EnvError> = None;
        if check_entry {
            let mut entry_checker = TypeChecker::with_environment(&environment, syntax_trees);
            error = match entry_checker.entry_check() {
                Ok(()) => None,
                Err(e) => Some(e),
            };
        }
        if error.is_none() {
            error = match TypeChecker::with_environment(&environment, syntax_trees).check() {
                Ok(()) => None,
                Err(e) => Some(e),
            };
        }
        if error.is_none() {
            let mut hierarchy = StructHierarchyChecker::with_environment(&environment, syntax_trees);
            error = match hierarchy.check() {
                Ok(()) => None,
                Err(e) => Some(e),
            };
        }
        EnvironmentBuilder { environment, module_paths, error, check_entry }
    }

    /// The environment built, or why a stage failed.
    pub fn build(self) -> (r: Result<Environment, EnvError>)
        ensures
            match self.error {
                Some(e) => r == Err::<Environment, EnvError>(e),
                None => r == Ok::<Environment, EnvError>(self.environment),
            },
    {
        match self.error {
            Some(e) => Err(e),
            None => Ok(self.environment),
        }
    }
}

} // verus!
