//! The environment: every scope of the program and what its names stand for.
use crate::ast::{AbstractSyntaxTree, DeclId, Name, ScopeId, GLOBAL_SCOPE};
use crate::env::error::EnvError;
use crate::env::name_resolution::resolved::Resolved;
use crate::env::scope::{DeclaredElement, NameSpaces, Scope};
use crate::names::{path_view, Ident, Table, TableKey};
use vstd::prelude::*;

verus! {

/// The scopes are numbered by their position, every scope but the global one has a parent
/// created before it, and every scope that a name space refers to exists.
pub open spec fn scopes_wf(scopes: Seq<Scope>) -> bool {
    &&& scopes.len() >= 1
    &&& forall|i: int| 0 <= i < scopes.len() ==> #[trigger] scopes[i].id == i
    &&& forall|i: int| 0 < i < scopes.len() ==> #[trigger] scopes[i].parent < i
    &&& forall|i: int, j: int|
        0 <= i < scopes.len() && 0 <= j < scopes[i].name_spaces.modules.entries@.len()
            ==> #[trigger] scopes[i].name_spaces.modules.entries@[j].1 < scopes.len()
    &&& forall|i: int, j: int|
        0 <= i < scopes.len() && 0 <= j < scopes[i].name_spaces.wildcard_imports@.len()
            ==> #[trigger] scopes[i].name_spaces.wildcard_imports@[j] < scopes.len()
}

/// The scope that the path of module names leads to from `start`, if any.
pub open spec fn module_at(scopes: Seq<Scope>, start: ScopeId, names: Seq<Seq<u8>>) -> Option<ScopeId>
    decreases names.len(),
{
    if names.len() == 0 {
        Some(start)
    } else if start >= scopes.len() {
        None
    } else {
        match scopes[start as int].name_spaces.modules.get_spec(names[0]) {
            Some(child) => module_at(scopes, child, names.drop_first()),
            None => None,
        }
    }
}

/// `b` holds every scope of `a`, whose module names stand for what they stood for and whose
/// parents stay, and perhaps more.
pub open spec fn modules_extended(a: Seq<Scope>, b: Seq<Scope>) -> bool {
    &&& a.len() <= b.len()
    &&& forall|i: int, k: Seq<u8>|
        0 <= i < a.len() && (#[trigger] a[i].name_spaces.modules.get_spec(k)) is Some
            ==> b[i].name_spaces.modules.get_spec(k) == a[i].name_spaces.modules.get_spec(k)
    &&& forall|i: int| 0 <= i < a.len() ==> #[trigger] b[i].parent == a[i].parent
}

/// Modules added to modules added stay added.
pub proof fn lemma_modules_extended_trans(a: Seq<Scope>, b: Seq<Scope>, c: Seq<Scope>)
    requires
        modules_extended(a, b),
        modules_extended(b, c),
    ensures
        modules_extended(a, c),
{
    assert forall|i: int, k: Seq<u8>|
        0 <= i < a.len() && (#[trigger] a[i].name_spaces.modules.get_spec(k)) is Some
        implies c[i].name_spaces.modules.get_spec(k) == a[i].name_spaces.modules.get_spec(k) by {
        assert(b[i].name_spaces.modules.get_spec(k) == a[i].name_spaces.modules.get_spec(k));
    }
}

/// A path that leads to a module keeps leading to it when modules are added.
pub proof fn lemma_module_at_extended(a: Seq<Scope>, b: Seq<Scope>, start: ScopeId, names: Seq<Seq<u8>>)
    requires
        modules_extended(a, b),
        module_at(a, start, names) is Some,
    ensures
        module_at(b, start, names) == module_at(a, start, names),
    decreases names.len(),
{
    if names.len() > 0 {
        let child = a[start as int].name_spaces.modules.get_spec(names[0]);
        assert(child is Some);
        lemma_module_at_extended(a, b, child->0, names.drop_first());
    }
}

/// A path followed from a scope of well-formed scopes leads to one of them.
proof fn lemma_module_at_in_bounds(scopes: Seq<Scope>, start: ScopeId, names: Seq<Seq<u8>>)
    requires
        scopes_wf(scopes),
        start < scopes.len(),
    ensures
        module_at(scopes, start, names) matches Some(m) ==> m < scopes.len(),
    decreases names.len(),
{
    if names.len() > 0 {
        match scopes[start as int].name_spaces.modules.get_spec(names[0]) {
            Some(c) => {
                scopes[start as int].name_spaces.modules.lemma_get_is_entry(names[0]);
                let j = choose|j: int|
                    0 <= j < scopes[start as int].name_spaces.modules.entries@.len()
                        && scopes[start as int].name_spaces.modules.entries@[j].1 == c
                        && #[trigger] scopes[start as int].name_spaces.modules.entries@[j].0.spec_key() == names[0];
                assert(scopes[start as int].name_spaces.modules.entries@[j].1 < scopes.len());
                lemma_module_at_in_bounds(scopes, c, names.drop_first());
            },
            None => {},
        }
    }
}

/// Looking up a module path followed by one more name finds that name among the modules of
/// the scope that the path leads to, and nothing where the path leads nowhere.
pub proof fn lemma_find_module_extended(env: &Environment, names: Seq<Seq<u8>>, name: Seq<u8>)
    requires
        env.wf(),
    ensures
        module_at(env.scopes@, GLOBAL_SCOPE, names.push(name)) == match module_at(env.scopes@, GLOBAL_SCOPE, names) {
            Some(m) => env.scopes@[m as int].name_spaces.modules.get_spec(name),
            None => None,
        },
{
    lemma_module_at_push(env.scopes@, GLOBAL_SCOPE, names, name);
    lemma_module_at_in_bounds(env.scopes@, GLOBAL_SCOPE, names);
}

/// Following a path and then one more name.
pub proof fn lemma_module_at_push(s: Seq<Scope>, start: ScopeId, names: Seq<Seq<u8>>, name: Seq<u8>)
    ensures
        module_at(s, start, names.push(name)) == match module_at(s, start, names) {
            Some(m) => if m < s.len() {
                s[m as int].name_spaces.modules.get_spec(name)
            } else {
                None
            },
            None => None,
        },
    decreases names.len(),
{
    if names.len() == 0 {
        assert(names.push(name)[0] == name);
        assert(names.push(name).drop_first() =~= Seq::<Seq<u8>>::empty());
        if start < s.len() {
            match s[start as int].name_spaces.modules.get_spec(name) {
                Some(c) => {
                    assert(module_at(s, c, Seq::<Seq<u8>>::empty()) == Some(c));
                },
                None => {},
            }
        }
    } else {
        assert(names.push(name)[0] == names[0]);
        assert(names.push(name).drop_first() =~= names.drop_first().push(name));
        if start < s.len() {
            match s[start as int].name_spaces.modules.get_spec(names[0]) {
                Some(c) => lemma_module_at_push(s, c, names.drop_first(), name),
                None => {},
            }
        }
    }
}

/// Every scope is unchanged but scope `i`.
pub open spec fn same_except(a: Seq<Scope>, b: Seq<Scope>, i: int) -> bool {
    &&& a.len() == b.len()
    &&& forall|j: int| 0 <= j < a.len() && j != i ==> #[trigger] a[j] == b[j]
    &&& a[i].id == b[i].id
    &&& a[i].parent == b[i].parent
}

/// The scopes of a program and what its names stand for.
pub struct Environment {
    pub scopes: Vec<Scope>,
    pub resolved_names: Table<Name, Resolved>,
}

impl Environment {
    /// The scopes are well formed.
    pub open spec fn wf(&self) -> bool {
        scopes_wf(self.scopes@)
    }

    /// A builder that starts from an environment with only the global scope.
    pub fn builder() -> (b: crate::env::env_builder::EnvironmentBuilder)
        ensures
            b.wf(),
            b.error is None,
            b.module_paths@.len() == 0,
            b.environment.scopes@.len() == 1,
            b.environment.scopes@[0].name_spaces.modules.entries@.len() == 0,
            b.environment.scopes@[0].name_spaces.declared.entries@.len() == 0,
            b.environment.scopes@[0].name_spaces.wildcard_imports@.len() == 0,
            b.environment.resolved_names.entries@.len() == 0,
            crate::env::construction::module_operations::no_modules_yet(&b.environment),
    {
        crate::env::env_builder::EnvironmentBuilder::new()
    }

    /// An environment with only the global scope.
    pub fn new() -> (env: Environment)
        ensures
            env.wf(),
            env.scopes@.len() == 1,
            env.scopes@[0].name_spaces.modules.entries@.len() == 0,
            env.scopes@[0].name_spaces.declared.entries@.len() == 0,
            env.scopes@[0].name_spaces.wildcard_imports@.len() == 0,
            env.resolved_names.entries@.len() == 0,
    {
        let env = Environment { scopes: vec![Scope::global()], resolved_names: Table::new() };
        env
    }

    /// The scope of the module that the path names, starting from the global scope.
    pub fn find_module(&self, names: &[Ident]) -> (res: Option<ScopeId>)
        requires
            self.wf(),
        ensures
            res == module_at(self.scopes@, GLOBAL_SCOPE, path_view(names@)),
            res matches Some(s) ==> s < self.scopes@.len(),
    {
        let ghost p = path_view(names@);
        let mut scope_id: usize = GLOBAL_SCOPE;
        let mut i: usize = 0;
        assert(p.skip(0) =~= p);
        while i < names.len()
            invariant
                self.wf(),
                p == path_view(names@),
                i <= names@.len(),
                scope_id < self.scopes@.len(),
                module_at(self.scopes@, GLOBAL_SCOPE, p) == module_at(
                    self.scopes@,
                    scope_id,
                    p.skip(i as int),
                ),
            decreases names@.len() - i,
        {
            assert(p.skip(i as int).drop_first() =~= p.skip(i + 1));
            assert(p.skip(i as int)[0] == names@[i as int]@);
            let found = self.scopes[scope_id].name_spaces.modules.get(&names[i]);
            match found {
                Some(child) => {
                    proof {
                        self.scopes@[scope_id as int].name_spaces.modules.lemma_get_is_entry(
                            names@[i as int]@,
                        );
                    }
                    scope_id = *child;
                },
                None => {
                    return None;
                },
            }
            i = i + 1;
        }
        assert(p.skip(i as int) =~= Seq::<Seq<u8>>::empty());
        Some(scope_id)
    }

    /// The scope with the id.
    pub fn get_scope(&self, scope_id: ScopeId) -> (s: &Scope)
        requires
            scope_id < self.scopes@.len(),
        ensures
            *s == self.scopes@[scope_id as int],
    {
        &self.scopes[scope_id]
    }

    /// The scope with the id, to change.
    pub fn get_scope_mut(&mut self, scope_id: ScopeId) -> (s: &mut Scope)
        requires
            scope_id < old(self).scopes@.len(),
        ensures
            *s == old(self).scopes@[scope_id as int],
            final(self).scopes@ == old(self).scopes@.update(scope_id as int, *final(s)),
            final(self).resolved_names == old(self).resolved_names,
    {
        &mut self.scopes[scope_id]
    }

    /// Adds an empty scope whose parent is `parent_id` and returns its id.
    pub fn add_child_scope(&mut self, parent_id: ScopeId) -> (child: ScopeId)
        requires
            old(self).wf(),
            parent_id < old(self).scopes@.len(),
        ensures
            final(self).wf(),
            child == old(self).scopes@.len(),
            final(self).scopes@.len() == old(self).scopes@.len() + 1,
            forall|j: int| 0 <= j < child ==> final(self).scopes@[j] == old(self).scopes@[j],
            final(self).scopes@[child as int].parent == parent_id,
            final(self).scopes@[child as int].id == child,
            final(self).scopes@[child as int].name_spaces.modules.entries@.len() == 0,
            final(self).scopes@[child as int].name_spaces.declared.entries@.len() == 0,
            final(self).scopes@[child as int].name_spaces.wildcard_imports@.len() == 0,
            final(self).resolved_names == old(self).resolved_names,
    {
        let child_id = self.scopes.len();
        let child = Scope { parent: parent_id, id: child_id, name_spaces: NameSpaces::new() };
        self.scopes.push(child);
        child_id
    }

    /// Lets scope `scope_id` name module `name` as the scope `module`; returns the module it
    /// named before.
    pub fn add_module(&mut self, scope_id: ScopeId, name: Ident, module: ScopeId) -> (previous: Option<ScopeId>)
        requires
            old(self).wf(),
            scope_id < old(self).scopes@.len(),
            module < old(self).scopes@.len(),
        ensures
            final(self).wf(),
            same_except(final(self).scopes@, old(self).scopes@, scope_id as int),
            previous == old(self).scopes@[scope_id as int].name_spaces.modules.get_spec(name@),
            final(self).scopes@[scope_id as int].name_spaces.modules.get_spec(name@) == Some(module),
            forall|k: Seq<u8>|
                k != name@ ==> #[trigger] final(self).scopes@[scope_id as int].name_spaces.modules.get_spec(k)
                    == old(self).scopes@[scope_id as int].name_spaces.modules.get_spec(k),
            final(self).scopes@[scope_id as int].name_spaces.declared == old(self).scopes@[scope_id as int].name_spaces.declared,
            final(self).scopes@[scope_id as int].name_spaces.wildcard_imports == old(self).scopes@[scope_id as int].name_spaces.wildcard_imports,
            final(self).resolved_names == old(self).resolved_names,
    {
        let ghost old_scopes = self.scopes@;
        let mut scope = Scope::global();
        std::mem::swap(&mut scope, &mut self.scopes[scope_id]);
        let ghost old_entries = scope.name_spaces.modules.entries@;
        let previous = scope.name_spaces.modules.insert(name, module);
        std::mem::swap(&mut scope, &mut self.scopes[scope_id]);
        proof {
            let new_entries = self.scopes@[scope_id as int].name_spaces.modules.entries@;
            assert forall|j: int| 0 <= j < new_entries.len() implies #[trigger] new_entries[j].1
                < self.scopes@.len() by {
                if new_entries[j].1 != module {
                    let m = choose|m: int| 0 <= m < old_entries.len() && old_entries[m].1 == new_entries[j].1;
                    assert(old_scopes[scope_id as int].name_spaces.modules.entries@[m].1 < old_scopes.len());
                }
            }
            assert(scopes_wf(self.scopes@));
        }
        previous
    }

    /// Lets scope `scope_id` name the declaration `element` as `name`; returns what the name
    /// stood for before.
    pub fn declare(&mut self, scope_id: ScopeId, name: Ident, element: DeclaredElement) -> (previous: Option<DeclaredElement>)
        requires
            old(self).wf(),
            scope_id < old(self).scopes@.len(),
        ensures
            final(self).wf(),
            same_except(final(self).scopes@, old(self).scopes@, scope_id as int),
            previous == old(self).scopes@[scope_id as int].name_spaces.declared.get_spec(name@),
            final(self).scopes@[scope_id as int].name_spaces.declared.get_spec(name@) == Some(element),
            forall|k: Seq<u8>|
                k != name@ ==> #[trigger] final(self).scopes@[scope_id as int].name_spaces.declared.get_spec(k)
                    == old(self).scopes@[scope_id as int].name_spaces.declared.get_spec(k),
            final(self).scopes@[scope_id as int].name_spaces.modules == old(self).scopes@[scope_id as int].name_spaces.modules,
            final(self).scopes@[scope_id as int].name_spaces.wildcard_imports == old(self).scopes@[scope_id as int].name_spaces.wildcard_imports,
            final(self).resolved_names == old(self).resolved_names,
    {
        let mut scope = Scope::global();
        std::mem::swap(&mut scope, &mut self.scopes[scope_id]);
        let previous = scope.name_spaces.declared.insert(name, element);
        std::mem::swap(&mut scope, &mut self.scopes[scope_id]);
        previous
    }

    /// Lets scope `scope_id` name the declaration `element` as `name`, unless the name
    /// already stands for something there.
    pub fn declare_if_absent(&mut self, scope_id: ScopeId, name: Ident, element: DeclaredElement)
        requires
            old(self).wf(),
            scope_id < old(self).scopes@.len(),
        ensures
            final(self).wf(),
            same_except(final(self).scopes@, old(self).scopes@, scope_id as int),
            final(self).scopes@[scope_id as int].name_spaces.declared.get_spec(name@) == match old(self).scopes@[scope_id as int].name_spaces.declared.get_spec(name@) {
                Some(w) => Some(w),
                None => Some(element),
            },
            forall|k: Seq<u8>|
                k != name@ ==> #[trigger] final(self).scopes@[scope_id as int].name_spaces.declared.get_spec(k)
                    == old(self).scopes@[scope_id as int].name_spaces.declared.get_spec(k),
            final(self).scopes@[scope_id as int].name_spaces.modules == old(self).scopes@[scope_id as int].name_spaces.modules,
            final(self).scopes@[scope_id as int].name_spaces.wildcard_imports == old(self).scopes@[scope_id as int].name_spaces.wildcard_imports,
            final(self).resolved_names == old(self).resolved_names,
    {
        let mut scope = Scope::global();
        std::mem::swap(&mut scope, &mut self.scopes[scope_id]);
        scope.name_spaces.declared.insert_if_absent(name, element);
        std::mem::swap(&mut scope, &mut self.scopes[scope_id]);
    }

    /// Lets scope `scope_id` see the declarations of scope `source` through a wildcard
    /// import; returns false, changing nothing, where it already does.
    pub fn add_wildcard_import(&mut self, scope_id: ScopeId, source: ScopeId) -> (added: bool)
        requires
            old(self).wf(),
            scope_id < old(self).scopes@.len(),
            source < old(self).scopes@.len(),
        ensures
            final(self).wf(),
            same_except(final(self).scopes@, old(self).scopes@, scope_id as int),
            added == !old(self).scopes@[scope_id as int].name_spaces.wildcard_imports@.contains(source),
            final(self).scopes@[scope_id as int].name_spaces.wildcard_imports@ == if added {
                old(self).scopes@[scope_id as int].name_spaces.wildcard_imports@.push(source)
            } else {
                old(self).scopes@[scope_id as int].name_spaces.wildcard_imports@
            },
            final(self).scopes@[scope_id as int].name_spaces.modules == old(self).scopes@[scope_id as int].name_spaces.modules,
            final(self).scopes@[scope_id as int].name_spaces.declared == old(self).scopes@[scope_id as int].name_spaces.declared,
            final(self).resolved_names == old(self).resolved_names,
    {
        let ghost old_scopes = self.scopes@;
        let mut i: usize = 0;
        while i < self.scopes[scope_id].name_spaces.wildcard_imports.len()
            invariant
                self.scopes@ == old_scopes,
                self.resolved_names == old(self).resolved_names,
                scopes_wf(old_scopes),
                scope_id < self.scopes@.len(),
                forall|j: int| 0 <= j < i ==> self.scopes@[scope_id as int].name_spaces.wildcard_imports@[j] != source,
                i <= self.scopes@[scope_id as int].name_spaces.wildcard_imports@.len(),
            decreases self.scopes@[scope_id as int].name_spaces.wildcard_imports@.len() - i,
        {
            if self.scopes[scope_id].name_spaces.wildcard_imports[i] == source {
                assert(self.scopes@[scope_id as int].name_spaces.wildcard_imports@[i as int] == source);
                return false;
            }
            i = i + 1;
        }
        let mut scope = Scope::global();
        std::mem::swap(&mut scope, &mut self.scopes[scope_id]);
        scope.name_spaces.wildcard_imports.push(source);
        std::mem::swap(&mut scope, &mut self.scopes[scope_id]);
        proof {
            assert forall|a: int, j: int|
                0 <= a < self.scopes@.len() && 0 <= j < self.scopes@[a].name_spaces.wildcard_imports@.len()
                implies #[trigger] self.scopes@[a].name_spaces.wildcard_imports@[j] < self.scopes@.len() by {
                if a == scope_id && j < old_scopes[a].name_spaces.wildcard_imports@.len() {
                    assert(self.scopes@[a].name_spaces.wildcard_imports@[j] == old_scopes[a].name_spaces.wildcard_imports@[j]);
                }
            }
        }
        true
    }

    /// What `Main` stands for in the global scope.
    pub open spec fn declared_entry(&self) -> Option<DeclaredElement> {
        self.scopes@[0].name_spaces.declared.get_spec(seq![77u8, 97, 105, 110])
    }

    /// The declaration that `Main` names in the global scope: `Ok(None)` where there is
    /// none, an error where it is not a constant.
    pub fn entry(&self) -> (res: Result<Option<DeclId>, EnvError>)
        requires
            self.wf(),
        ensures
            res == match self.declared_entry() {
                None => Ok(None),
                Some(DeclaredElement::Constant(d)) => Ok(Some(d)),
                Some(_) => Err(EnvError::EntryNotConstant),
            },
    {
        let main: Vec<u8> = vec![77u8, 97, 105, 110];
        assert(main@ =~= seq![77u8, 97, 105, 110]);
        match self.scopes[0].name_spaces.declared.get(&main) {
            None => Ok(None),
            Some(DeclaredElement::Constant(d)) => Ok(Some(*d)),
            Some(_) => Err(EnvError::EntryNotConstant),
        }
    }
}

impl Default for Environment {
    /// An environment with only the global scope.
    fn default() -> (env: Environment)
        ensures
            env.wf(),
            env.scopes@.len() == 1,
            env.scopes@[0].name_spaces.modules.entries@.len() == 0,
            env.scopes@[0].name_spaces.declared.entries@.len() == 0,
            env.scopes@[0].name_spaces.wildcard_imports@.len() == 0,
            env.resolved_names.entries@.len() == 0,
    {
        Environment::new()
    }
}

} // verus!
