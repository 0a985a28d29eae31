//! Inserts the modules of the program into the environment.
use crate::ast::{ScopeId, GLOBAL_SCOPE};
use crate::env::environment::{
    lemma_module_at_extended, lemma_module_at_push, module_at, modules_extended, Environment,
};
use crate::env::error::EnvError;
use crate::names::{copy_bytes, copy_path, path_view, Ident, Table};
use vstd::prelude::*;

verus! {

/// Every path that the table holds leads, from the global scope, to the module it maps to.
pub open spec fn known_modules_found(env: &Environment, known: &Table<Vec<Ident>, ScopeId>) -> bool {
    forall|p: Seq<Seq<u8>>|
        (#[trigger] known.get_spec(p)) is Some ==> module_at(env.scopes@, GLOBAL_SCOPE, p)
            == known.get_spec(p) && known.get_spec(p)->0 < env.scopes@.len()
}

/// Every module that the environment holds is recorded in the table under its path: a
/// module of the global scope under its name, and a module of a recorded module under the
/// path of that module and its name. The table records no scope twice, nor the global scope.
pub open spec fn modules_recorded(env: &Environment, known: &Table<Vec<Ident>, ScopeId>) -> bool {
    &&& forall|k: Seq<u8>|
        (#[trigger] env.scopes@[GLOBAL_SCOPE as int].name_spaces.modules.get_spec(k)) is Some ==> known.get_spec(seq![k])
            is Some
    &&& forall|q: Seq<Seq<u8>>, k: Seq<u8>|
        #![trigger known.get_spec(q), known.get_spec(q.push(k))]
        known.get_spec(q) is Some && known.get_spec(q)->0 < env.scopes@.len()
            && env.scopes@[known.get_spec(q)->0 as int].name_spaces.modules.get_spec(k) is Some
            ==> known.get_spec(q.push(k)) is Some
    &&& forall|q1: Seq<Seq<u8>>, q2: Seq<Seq<u8>>|
        (#[trigger] known.get_spec(q1)) is Some && known.get_spec(q1) == #[trigger] known.get_spec(q2) ==> q1 == q2
    &&& forall|q: Seq<Seq<u8>>| (#[trigger] known.get_spec(q)) is Some ==> known.get_spec(q)->0 != GLOBAL_SCOPE
}

/// The scopes of the first sequence keep their parents, and every scope added after them
/// has the global scope as its parent.
pub open spec fn added_under_global(a: Seq<crate::env::scope::Scope>, b: Seq<crate::env::scope::Scope>) -> bool {
    &&& a.len() <= b.len()
    &&& forall|j: int| 0 <= j < a.len() ==> (#[trigger] b[j]).parent == a[j].parent
    &&& forall|j: int| a.len() <= j < b.len() ==> (#[trigger] b[j]).parent == GLOBAL_SCOPE
}

/// The path leads to the scope `j` from the global scope.
pub open spec fn leads_to(scopes: Seq<crate::env::scope::Scope>, path: Seq<Seq<u8>>, j: int) -> bool {
    module_at(scopes, GLOBAL_SCOPE, path) matches Some(m) && m == j
}

/// Every scope of `b` after those of `a` is, in `b`, the module of a prefix of the path.
pub open spec fn added_for_prefixes(a: Seq<crate::env::scope::Scope>, b: Seq<crate::env::scope::Scope>, path: Seq<Seq<u8>>) -> bool {
    forall|j: int| a.len() <= j < b.len() ==> #[trigger] prefix_module(b, path, path.len() as int, j)
}

/// One of the first `upto` nonempty prefixes of the path leads to the scope `j`.
pub open spec fn prefix_module(scopes: Seq<crate::env::scope::Scope>, path: Seq<Seq<u8>>, upto: int, j: int) -> bool {
    exists|n: int| 1 <= n <= upto && #[trigger] leads_to(scopes, path.take(n), j)
}

/// Every prefix of the path leads to a module.
pub open spec fn prefixes_found(scopes: Seq<crate::env::scope::Scope>, path: Seq<Seq<u8>>) -> bool {
    forall|n: int| 0 <= n <= path.len() ==> (#[trigger] module_at(scopes, GLOBAL_SCOPE, path.take(n))) is Some
}

/// One of the paths has a nonempty prefix that leads to the scope `j`.
pub open spec fn module_of_some_path(scopes: Seq<crate::env::scope::Scope>, paths: Seq<Vec<Ident>>, j: int) -> bool {
    exists|i: int| 0 <= i < paths.len() && #[trigger] prefix_module(scopes, path_view(paths[i]@), path_view(paths[i]@).len() as int, j)
}

proof fn lemma_prefix_module_kept(a: Seq<crate::env::scope::Scope>, b: Seq<crate::env::scope::Scope>, path: Seq<Seq<u8>>, upto: int, j: int)
    requires
        modules_extended(a, b),
        prefix_module(a, path, upto, j),
    ensures
        prefix_module(b, path, upto, j),
{
    let n = choose|n: int| 1 <= n <= upto && #[trigger] leads_to(a, path.take(n), j);
    lemma_module_at_extended(a, b, GLOBAL_SCOPE, path.take(n));
    assert(leads_to(b, path.take(n), j));
}

proof fn lemma_prefixes_found_kept(a: Seq<crate::env::scope::Scope>, b: Seq<crate::env::scope::Scope>, path: Seq<Seq<u8>>)
    requires
        modules_extended(a, b),
        prefixes_found(a, path),
    ensures
        prefixes_found(b, path),
{
    assert forall|n: int| 0 <= n <= path.len() implies (#[trigger] module_at(b, GLOBAL_SCOPE, path.take(n))) is Some by {
        assert(module_at(a, GLOBAL_SCOPE, path.take(n)) is Some);
        lemma_module_at_extended(a, b, GLOBAL_SCOPE, path.take(n));
    }
}

/// The global scope holds no module.
pub open spec fn no_modules_yet(env: &Environment) -> bool {
    forall|k: Seq<u8>| (#[trigger] env.scopes@[GLOBAL_SCOPE as int].name_spaces.modules.get_spec(k)) is None
}

/// A new module `child`, named `name` in `parent`, recorded under the path `q0` of `parent`
/// and the name, keeps every module recorded.
proof fn lemma_recorded_after_new_module(
    e0: &Environment,
    e2: &Environment,
    t0: &Table<Vec<Ident>, ScopeId>,
    t1: &Table<Vec<Ident>, ScopeId>,
    parent: ScopeId,
    child: ScopeId,
    name: Seq<u8>,
    q0: Seq<Seq<u8>>,
)
    requires
        modules_recorded(e0, t0),
        known_modules_found(e0, t0),
        child == e0.scopes@.len(),
        e2.scopes@.len() == child + 1,
        parent < child,
        forall|j: int| 0 <= j < child && j != parent ==> e2.scopes@[j].name_spaces.modules == e0.scopes@[j].name_spaces.modules,
        forall|k: Seq<u8>| (#[trigger] e2.scopes@[child as int].name_spaces.modules.get_spec(k)) is None,
        e2.scopes@[parent as int].name_spaces.modules.get_spec(name) == Some(child),
        forall|k: Seq<u8>|
            k != name ==> #[trigger] e2.scopes@[parent as int].name_spaces.modules.get_spec(k)
                == e0.scopes@[parent as int].name_spaces.modules.get_spec(k),
        (parent == GLOBAL_SCOPE && q0 == Seq::<Seq<u8>>::empty()) || (parent != GLOBAL_SCOPE && t0.get_spec(q0) == Some(parent)),
        t0.get_spec(q0.push(name)) is None,
        t1.get_spec(q0.push(name)) == Some(child),
        forall|q: Seq<Seq<u8>>| q != q0.push(name) ==> #[trigger] t1.get_spec(q) == t0.get_spec(q),
    ensures
        modules_recorded(e2, t1),
{
    let r = q0.push(name);
    assert forall|k: Seq<u8>| (#[trigger] e2.scopes@[GLOBAL_SCOPE as int].name_spaces.modules.get_spec(k)) is Some implies t1.get_spec(
        seq![k],
    ) is Some by {
        if parent == GLOBAL_SCOPE && k == name {
            assert(r =~= seq![k]);
        } else {
            assert(e0.scopes@[GLOBAL_SCOPE as int].name_spaces.modules.get_spec(k) is Some);
            assert(t0.get_spec(seq![k]) is Some);
            if seq![k] != r {
                assert(t1.get_spec(seq![k]) == t0.get_spec(seq![k]));
            }
        }
    }
    assert forall|q: Seq<Seq<u8>>, k: Seq<u8>|
        #![trigger t1.get_spec(q), t1.get_spec(q.push(k))]
        t1.get_spec(q) is Some && t1.get_spec(q)->0 < e2.scopes@.len()
            && e2.scopes@[t1.get_spec(q)->0 as int].name_spaces.modules.get_spec(k) is Some
        implies t1.get_spec(q.push(k)) is Some by {
        if q == r {
            assert(e2.scopes@[child as int].name_spaces.modules.get_spec(k) is None);
        } else {
            assert(t1.get_spec(q) == t0.get_spec(q));
            let s = t0.get_spec(q)->0;
            assert(s < child);
            if s == parent && k == name {
                if parent == GLOBAL_SCOPE {
                    assert(false);
                } else {
                    assert(q == q0);
                }
            } else {
                assert(e0.scopes@[s as int].name_spaces.modules.get_spec(k) is Some);
                assert(t0.get_spec(q.push(k)) is Some);
                if q.push(k) != r {
                    assert(t1.get_spec(q.push(k)) == t0.get_spec(q.push(k)));
                }
            }
        }
    }
    assert forall|q1: Seq<Seq<u8>>, q2: Seq<Seq<u8>>|
        (#[trigger] t1.get_spec(q1)) is Some && t1.get_spec(q1) == #[trigger] t1.get_spec(q2) implies q1 == q2 by {
        if q1 != r && q2 != r {
            assert(t0.get_spec(q1) == t1.get_spec(q1));
            assert(t0.get_spec(q2) == t1.get_spec(q2));
        } else if q1 == r && q2 != r {
            assert(t0.get_spec(q2) == t1.get_spec(q2));
            assert(t0.get_spec(q2)->0 < child);
        } else if q2 == r && q1 != r {
            assert(t0.get_spec(q1) == t1.get_spec(q1));
            assert(t0.get_spec(q1)->0 < child);
        }
    }
    assert forall|q: Seq<Seq<u8>>| (#[trigger] t1.get_spec(q)) is Some implies t1.get_spec(q)->0 != GLOBAL_SCOPE by {
        if q != r {
            assert(t1.get_spec(q) == t0.get_spec(q));
        }
    }
}

/// Inserts module information into the environment.
pub struct ModuleAdder;

impl ModuleAdder {
    /// Creates a scope for every module of every path, each under the module before it,
    /// and fails on two modules of one name in one module.
    pub fn add_modules(env: &mut Environment, module_paths: &[Vec<Ident>]) -> (res: Result<(), EnvError>)
        requires
            old(env).wf(),
        ensures
            final(env).wf(),
            modules_extended(old(env).scopes@, final(env).scopes@),
            res is Ok ==> forall|i: int|
                0 <= i < module_paths@.len() ==> (#[trigger] module_at(
                    final(env).scopes@,
                    GLOBAL_SCOPE,
                    path_view(module_paths@[i]@),
                )) is Some,
            no_modules_yet(old(env)) ==> res is Ok,
            added_under_global(old(env).scopes@, final(env).scopes@),
            forall|j: int|
                old(env).scopes@.len() <= j < final(env).scopes@.len() ==> #[trigger] module_of_some_path(
                    final(env).scopes@,
                    module_paths@,
                    j,
                ),
            res is Ok ==> forall|i: int| 0 <= i < module_paths@.len() ==> prefixes_found(final(env).scopes@, path_view((#[trigger] module_paths@[i])@)),
    {
        let mut existing: Table<Vec<Ident>, ScopeId> = Table::new();
        proof {
            if no_modules_yet(env) {
                assert forall|k: Seq<u8>| (#[trigger] env.scopes@[GLOBAL_SCOPE as int].name_spaces.modules.get_spec(k)) is Some
                    implies existing.get_spec(seq![k]) is Some by {}
            }
        }
        let ghost start = env.scopes@;
        let mut i: usize = 0;
        while i < module_paths.len()
            invariant
                env.wf(),
                start == old(env).scopes@,
                i <= module_paths@.len(),
                modules_extended(start, env.scopes@),
                known_modules_found(env, &existing),
                no_modules_yet(old(env)) ==> modules_recorded(env, &existing),
                added_under_global(old(env).scopes@, env.scopes@),
                forall|j: int|
                    0 <= j < i ==> (#[trigger] module_at(
                        env.scopes@,
                        GLOBAL_SCOPE,
                        path_view(module_paths@[j]@),
                    )) is Some,
                forall|j: int|
                    old(env).scopes@.len() <= j < env.scopes@.len() ==> #[trigger] module_of_some_path(env.scopes@, module_paths@, j),
                forall|k: int| 0 <= k < i ==> prefixes_found(env.scopes@, path_view((#[trigger] module_paths@[k])@)),
            decreases module_paths@.len() - i,
        {
            let ghost before = env.scopes@;
            let r = Self::insert_modules(env, module_paths[i].as_slice(), &mut existing);
            proof {
                assert forall|j: int|
                    old(env).scopes@.len() <= j < env.scopes@.len() implies #[trigger] module_of_some_path(env.scopes@, module_paths@, j) by {
                    if j < before.len() {
                        assert(module_of_some_path(before, module_paths@, j));
                        let k = choose|k: int|
                            0 <= k < module_paths@.len() && #[trigger] prefix_module(
                                before,
                                path_view(module_paths@[k]@),
                                path_view(module_paths@[k]@).len() as int,
                                j,
                            );
                        lemma_prefix_module_kept(before, env.scopes@, path_view(module_paths@[k]@), path_view(module_paths@[k]@).len() as int, j);
                    } else {
                        assert(prefix_module(env.scopes@, path_view(module_paths@[i as int]@), path_view(module_paths@[i as int]@).len() as int, j));
                    }
                }
            }
            match r {
                Ok(()) => {},
                Err(e) => {
                    return Err(e);
                },
            }
            proof {
                assert forall|k: int| 0 <= k < i + 1 implies prefixes_found(env.scopes@, path_view((#[trigger] module_paths@[k])@)) by {
                    if k < i {
                        lemma_prefixes_found_kept(before, env.scopes@, path_view(module_paths@[k]@));
                    }
                }
            }
            assert(added_under_global(old(env).scopes@, env.scopes@)) by {
                assert forall|j: int| 0 <= j < old(env).scopes@.len() implies (#[trigger] env.scopes@[j]).parent
                    == old(env).scopes@[j].parent by {
                    assert(before[j].parent == old(env).scopes@[j].parent);
                }
                assert forall|j: int| old(env).scopes@.len() <= j < env.scopes@.len() implies (#[trigger] env.scopes@[j]).parent
                    == GLOBAL_SCOPE by {
                    if j < before.len() {
                        assert(before[j].parent == GLOBAL_SCOPE);
                    }
                }
            }
            proof {
                assert forall|j: int| 0 <= j < i + 1 implies (#[trigger] module_at(
                    env.scopes@,
                    GLOBAL_SCOPE,
                    path_view(module_paths@[j]@),
                )) is Some by {
                    if j < i {
                        lemma_module_at_extended(before, env.scopes@, GLOBAL_SCOPE, path_view(module_paths@[j]@));
                    }
                }
                assert(modules_extended(start, env.scopes@)) by {
                    assert forall|a: int, k: Seq<u8>|
                        0 <= a < start.len() && (#[trigger] start[a].name_spaces.modules.get_spec(k)) is Some
                        implies env.scopes@[a].name_spaces.modules.get_spec(k) == start[a].name_spaces.modules.get_spec(k) by {
                        assert(before[a].name_spaces.modules.get_spec(k) == start[a].name_spaces.modules.get_spec(k));
                    }
                }
            }
            i = i + 1;
        }
        Ok(())
    }

    /// Creates the modules of one path that do not exist yet.
    fn insert_modules(
        env: &mut Environment,
        mod_path: &[Ident],
        existing_modules: &mut Table<Vec<Ident>, ScopeId>,
    ) -> (res: Result<(), EnvError>)
        requires
            old(env).wf(),
            known_modules_found(old(env), old(existing_modules)),
        ensures
            final(env).wf(),
            modules_extended(old(env).scopes@, final(env).scopes@),
            known_modules_found(final(env), final(existing_modules)),
            res is Ok ==> module_at(final(env).scopes@, GLOBAL_SCOPE, path_view(mod_path@)) is Some,
            modules_recorded(old(env), old(existing_modules)) ==> res is Ok && modules_recorded(
                final(env),
                final(existing_modules),
            ),
            added_under_global(old(env).scopes@, final(env).scopes@),
            added_for_prefixes(old(env).scopes@, final(env).scopes@, path_view(mod_path@)),
            res is Ok ==> prefixes_found(final(env).scopes@, path_view(mod_path@)),
    {
        let ghost p = path_view(mod_path@);
        let ghost start = env.scopes@;
        let mut parent_scope_id: usize = GLOBAL_SCOPE;
        let mut scope_name: Vec<Ident> = Vec::new();
        let mut i: usize = 0;
        assert(p.take(0) =~= Seq::<Seq<u8>>::empty());
        while i < mod_path.len()
            invariant
                env.wf(),
                start == old(env).scopes@,
                p == path_view(mod_path@),
                i <= mod_path@.len(),
                path_view(scope_name@) == p.take(i as int),
                parent_scope_id < env.scopes@.len(),
                module_at(env.scopes@, GLOBAL_SCOPE, p.take(i as int)) == Some(parent_scope_id),
                modules_extended(start, env.scopes@),
                known_modules_found(env, existing_modules),
                modules_recorded(old(env), old(existing_modules)) ==> modules_recorded(env, existing_modules) && (i == 0
                    ==> parent_scope_id == GLOBAL_SCOPE) && (i > 0 ==> existing_modules.get_spec(p.take(i as int))
                    == Some(parent_scope_id)),
                added_under_global(start, env.scopes@),
                forall|j: int| start.len() <= j < env.scopes@.len() ==> #[trigger] prefix_module(env.scopes@, p, i as int, j),
                forall|n: int| 0 <= n <= i ==> (#[trigger] module_at(env.scopes@, GLOBAL_SCOPE, p.take(n))) is Some,
            decreases mod_path@.len() - i,
        {
            let module_name = &mod_path[i];
            scope_name.push(copy_bytes(module_name.as_slice()));
            let ghost prefix = path_view(scope_name@);
            proof {
                assert(prefix =~= p.take(i as int).push(module_name@));
                assert(p.take(i + 1) =~= p.take(i as int).push(module_name@));
            }
            let ghost before = env.scopes@;
            let ghost env0 = *env;
            let ghost t0 = *existing_modules;
            let ghost parent0 = parent_scope_id;
            let found = existing_modules.get(&scope_name);
            match found {
                Some(scope_id) => {
                    parent_scope_id = *scope_id;
                    proof {
                        assert(module_at(env.scopes@, GLOBAL_SCOPE, p.take(i + 1)) == Some(parent_scope_id));
                        assert forall|j: int| start.len() <= j < env.scopes@.len() implies #[trigger] prefix_module(
                            env.scopes@,
                            p,
                            i + 1,
                            j,
                        ) by {
                            assert(prefix_module(env.scopes@, p, i as int, j));
                            let n = choose|n: int| 1 <= n <= i && #[trigger] leads_to(env.scopes@, p.take(n), j);
                            assert(1 <= n <= i + 1);
                        }
                        assert forall|n: int| 0 <= n <= i + 1 implies (#[trigger] module_at(env.scopes@, GLOBAL_SCOPE, p.take(n))) is Some by {}
                    }
                },
                None => {
                    proof {
                        if modules_recorded(old(env), old(existing_modules)) && i == 0 {
                            assert(prefix =~= seq![module_name@]);
                        }
                    }
                    if env.scopes[parent_scope_id].name_spaces.modules.contains_key(module_name) {
                        proof {
                            assert forall|j: int| start.len() <= j < env.scopes@.len() implies #[trigger] prefix_module(
                                env.scopes@,
                                p,
                                p.len() as int,
                                j,
                            ) by {
                                assert(prefix_module(env.scopes@, p, i as int, j));
                                let n = choose|n: int| 1 <= n <= i && #[trigger] leads_to(env.scopes@, p.take(n), j);
                                assert(1 <= n <= p.len());
                            }
                        }
                        return Err(EnvError::ConflictingModule(copy_bytes(module_name.as_slice())));
                    }
                    let child_scope_id = env.add_child_scope(GLOBAL_SCOPE);
                    let ghost mid = env.scopes@;
                    proof {
                        lemma_module_at_extended(before, mid, GLOBAL_SCOPE, p.take(i as int));
                    }
                    let shaded = env.add_module(parent_scope_id, copy_bytes(module_name.as_slice()), child_scope_id);
                    proof {
                        assert(modules_extended(mid, env.scopes@)) by {
                            assert forall|a: int, k: Seq<u8>|
                                0 <= a < mid.len() && (#[trigger] mid[a].name_spaces.modules.get_spec(k)) is Some
                                implies env.scopes@[a].name_spaces.modules.get_spec(k) == mid[a].name_spaces.modules.get_spec(k) by {
                                if a == parent_scope_id {
                                    if k == module_name@ {
                                        assert(false);
                                    }
                                }
                            }
                        }
                        assert(modules_extended(before, env.scopes@)) by {
                            assert forall|a: int, k: Seq<u8>|
                                0 <= a < before.len() && (#[trigger] before[a].name_spaces.modules.get_spec(k)) is Some
                                implies env.scopes@[a].name_spaces.modules.get_spec(k) == before[a].name_spaces.modules.get_spec(k) by {
                                assert(mid[a] == before[a]);
                            }
                        }
                        lemma_module_at_extended(mid, env.scopes@, GLOBAL_SCOPE, p.take(i as int));
                        lemma_module_at_push(env.scopes@, GLOBAL_SCOPE, p.take(i as int), module_name@);
                        assert forall|q: Seq<Seq<u8>>| (#[trigger] existing_modules.get_spec(q)) is Some implies module_at(
                            env.scopes@,
                            GLOBAL_SCOPE,
                            q,
                        ) == existing_modules.get_spec(q) by {
                            lemma_module_at_extended(before, env.scopes@, GLOBAL_SCOPE, q);
                        }
                    }
                    existing_modules.insert(copy_path(scope_name.as_slice()), child_scope_id);
                    proof {
                        if modules_recorded(old(env), old(existing_modules)) {
                            assert forall|k: Seq<u8>| (#[trigger] env.scopes@[child_scope_id as int].name_spaces.modules.get_spec(k))
                                is None by {
                                assert(mid[child_scope_id as int].name_spaces.modules.entries_view().len() == 0);
                                assert(env.scopes@[child_scope_id as int] == mid[child_scope_id as int]);
                            }
                            if i == 0 {
                                assert(p.take(0) =~= Seq::<Seq<u8>>::empty());
                            }
                            assert(prefix == p.take(i as int).push(module_name@));
                            lemma_recorded_after_new_module(
                                &env0,
                                env,
                                &t0,
                                existing_modules,
                                parent0,
                                child_scope_id,
                                module_name@,
                                p.take(i as int),
                            );
                        }
                    }
                    parent_scope_id = child_scope_id;
                    proof {
                        assert(module_at(env.scopes@, GLOBAL_SCOPE, p.take(i + 1)) == Some(child_scope_id));
                        assert(env.scopes@.len() == before.len() + 1);
                        assert(child_scope_id == before.len());
                        assert forall|j: int| start.len() <= j < env.scopes@.len() implies #[trigger] prefix_module(
                            env.scopes@,
                            p,
                            i + 1,
                            j,
                        ) by {
                            if j < before.len() {
                                assert(prefix_module(before, p, i as int, j));
                                let n = choose|n: int| 1 <= n <= i && #[trigger] leads_to(before, p.take(n), j);
                                lemma_module_at_extended(before, env.scopes@, GLOBAL_SCOPE, p.take(n));
                                assert(leads_to(env.scopes@, p.take(n), j));
                            } else {
                                assert(leads_to(env.scopes@, p.take(i + 1), j));
                            }
                        }
                        assert forall|n: int| 0 <= n <= i + 1 implies (#[trigger] module_at(env.scopes@, GLOBAL_SCOPE, p.take(n))) is Some by {
                            if n <= i {
                                assert(module_at(before, GLOBAL_SCOPE, p.take(n)) is Some);
                                lemma_module_at_extended(before, env.scopes@, GLOBAL_SCOPE, p.take(n));
                            }
                        }
                        assert(modules_extended(start, env.scopes@)) by {
                            assert forall|a: int, k: Seq<u8>|
                                0 <= a < start.len() && (#[trigger] start[a].name_spaces.modules.get_spec(k)) is Some
                                implies env.scopes@[a].name_spaces.modules.get_spec(k) == start[a].name_spaces.modules.get_spec(k) by {
                                assert(before[a].name_spaces.modules.get_spec(k) == start[a].name_spaces.modules.get_spec(k));
                            }
                        }
                    }
                },
            }
            i = i + 1;
        }
        assert(p.take(i as int) =~= p);
        proof {
            assert forall|j: int| start.len() <= j < env.scopes@.len() implies #[trigger] prefix_module(
                env.scopes@,
                p,
                p.len() as int,
                j,
            ) by {
                assert(prefix_module(env.scopes@, p, i as int, j));
            }
        }
        Ok(())
    }
}

} // verus!
