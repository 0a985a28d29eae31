//! Finds what a name stands for from a scope.
use crate::ast::{DeclId, Name, ScopeId, GLOBAL_SCOPE};
use crate::env::environment::Environment;
use crate::env::error::EnvError;
use crate::env::name_resolution::resolved::{Resolved, SpecResolved};
use crate::env::scope::{DeclaredElement, Scope};
use crate::names::{copy_bytes, copy_path, join_path, path_view, Ident};
use vstd::prelude::*;

verus! {

/// The number of scopes not searched yet.
pub open spec fn count_false(s: Seq<bool>) -> nat
    decreases s.len(),
{
    if s.len() == 0 {
        0
    } else {
        (if s.last() { 0nat } else { 1nat }) + count_false(s.drop_last())
    }
}

proof fn lemma_count_false_update(s: Seq<bool>, i: int)
    requires
        0 <= i < s.len(),
        !s[i],
    ensures
        count_false(s.update(i, true)) + 1 == count_false(s),
    decreases s.len(),
{
    let t = s.update(i, true);
    if i == s.len() - 1 {
        assert(t.drop_last() =~= s.drop_last());
    } else {
        assert(t.drop_last() =~= s.drop_last().update(i, true));
        lemma_count_false_update(s.drop_last(), i);
    }
}

/// What the declared element of a scope, or else its module, stands for.
pub open spec fn in_scope(scope: Scope, name: Seq<u8>) -> Option<SpecResolved> {
    match scope.name_spaces.declared.get_spec(name) {
        Some(d) => Some(SpecResolved::from_declared(d)),
        None => match scope.name_spaces.modules.get_spec(name) {
            Some(m) => Some(SpecResolved::Module(m)),
            None => None,
        },
    }
}

/// Whether the scope does not declare the name and imports, by wildcard, distinct modules
/// that import nothing by wildcard and have not been searched, two of which have the name:
/// the name is ambiguous there.
pub open spec fn wildcards_clash(scopes: Seq<Scope>, scope: int, name: Seq<u8>, searched: Seq<bool>) -> bool {
    let ws = scopes[scope].name_spaces.wildcard_imports@;
    &&& scopes[scope].name_spaces.declared.get_spec(name) is None
    &&& forall|k: int|
        0 <= k < ws.len() ==> (#[trigger] ws[k]) < scopes.len() && scopes[ws[k] as int].name_spaces.wildcard_imports@.len() == 0
            && !searched[ws[k] as int]
    &&& forall|k1: int, k2: int| 0 <= k1 < k2 < ws.len() ==> #[trigger] ws[k1] != #[trigger] ws[k2]
    &&& exists|a: int, b: int|
        0 <= a < b < ws.len() && (#[trigger] in_scope(scopes[ws[a] as int], name)) is Some && (#[trigger] in_scope(
            scopes[ws[b] as int],
            name,
        )) is Some
}

/// The declaration that a name stands for by lexical scoping alone: the nearest scope, from
/// `s` up through the parents, that declares it; the search stops, with `None`, at a scope
/// with wildcard imports or with a module of that name, and at the global scope.
pub open spec fn lexically_declared(scopes: Seq<Scope>, s: ScopeId, name: Seq<u8>) -> Option<DeclaredElement>
    decreases s,
{
    if s >= scopes.len() {
        None
    } else {
        match scopes[s as int].name_spaces.declared.get_spec(name) {
            Some(d) => Some(d),
            None => if s == GLOBAL_SCOPE || scopes[s as int].name_spaces.wildcard_imports@.len() > 0
                || scopes[s as int].name_spaces.modules.get_spec(name) is Some || scopes[s as int].parent >= s {
                None
            } else {
                lexically_declared(scopes, scopes[s as int].parent, name)
            },
        }
    }
}

/// What a path stands for once its component before `i` stood for `r`: in a module, the
/// next component is looked up among its declarations, then its modules; from a constant
/// on, the rest of the path are fields and attributes accessed on it. `None` where a
/// component is not in its module, or follows a struct or a trait.
pub open spec fn follow_path(scopes: Seq<Scope>, r: SpecResolved, path: Seq<Seq<u8>>, i: int) -> Option<SpecResolved>
    decreases path.len() - i,
{
    if i >= path.len() {
        Some(r)
    } else {
        match r {
            SpecResolved::Module(m) => if 0 <= m < scopes.len() {
                match in_scope(scopes[m as int], path[i]) {
                    Some(next) => follow_path(scopes, next, path, i + 1),
                    None => None,
                }
            } else {
                None
            },
            SpecResolved::Constant(c) => Some(SpecResolved::InstanceAccess(c, path.subrange(i, path.len() as int))),
            _ => None,
        }
    }
}

/// The scope and the parents above it, up to the global scope.
pub open spec fn lexical_chain(scopes: Seq<Scope>, s: ScopeId) -> Set<int>
    decreases s,
{
    if s >= scopes.len() {
        Set::empty()
    } else if s == GLOBAL_SCOPE || scopes[s as int].parent >= s {
        set![s as int]
    } else {
        lexical_chain(scopes, scopes[s as int].parent).insert(s as int)
    }
}

/// A set of scopes that holds the scope `s` and its parents up to the global scope and, with
/// each of its scopes, the scopes that its wildcard imports bring.
pub open spec fn reach_closed(scopes: Seq<Scope>, s: ScopeId, reach: Set<int>) -> bool {
    &&& lexical_chain(scopes, s).subset_of(reach)
    &&& forall|k: int|
        #[trigger] reach.contains(k) ==> 0 <= k < scopes.len() && forall|i: int|
            0 <= i < scopes[k].name_spaces.wildcard_imports@.len() ==> reach.contains(
                scopes[k].name_spaces.wildcard_imports@[i] as int,
            )
}

/// Nothing within reach of scope `s`, up through its parents and through wildcard imports,
/// declares the name or has a module of that name.
pub open spec fn found_nowhere(scopes: Seq<Scope>, s: ScopeId, name: Seq<u8>) -> bool {
    exists|reach: Set<int>|
        reach_closed(scopes, s, reach) && forall|k: int| #[trigger] reach.contains(k) ==> in_scope(scopes[k], name) is None
}

/// Scope `k` has nothing under the name, and every scope its wildcard imports bring has been
/// searched.
spec fn explored(scopes: Seq<Scope>, name: Seq<u8>, searched: Seq<bool>, k: int) -> bool {
    &&& in_scope(scopes[k], name) is None
    &&& forall|i: int|
        0 <= i < scopes[k].name_spaces.wildcard_imports@.len() ==> searched[scopes[k].name_spaces.wildcard_imports@[i] as int]
}

/// Every scope searched is explored, but those whose search is still going on.
spec fn settled(scopes: Seq<Scope>, name: Seq<u8>, searched: Seq<bool>, pending: Set<int>) -> bool {
    forall|k: int| 0 <= k < searched.len() && #[trigger] searched[k] && !pending.contains(k) ==> explored(scopes, name, searched, k)
}

/// Two different scopes have something under the name.
pub open spec fn found_twice(scopes: Seq<Scope>, name: Seq<u8>) -> bool {
    exists|a: int, b: int|
        0 <= a < scopes.len() && 0 <= b < scopes.len() && a != b && (#[trigger] in_scope(scopes[a], name)) is Some && (
        #[trigger] in_scope(scopes[b], name)) is Some
}

/// Scope `o` is the scope searched, or one whose search began during it, and it has `r`
/// under the name.
spec fn origin_of(scopes: Seq<Scope>, name: Seq<u8>, before: Seq<bool>, after: Seq<bool>, scope: int, o: int, r: SpecResolved) -> bool {
    &&& 0 <= o < scopes.len()
    &&& (o == scope || (!before[o] && after[o]))
    &&& in_scope(scopes[o], name) == Some(r)
}

/// `b` has searched every scope `a` has.
spec fn searched_grows(a: Seq<bool>, b: Seq<bool>) -> bool {
    &&& a.len() == b.len()
    &&& forall|k: int| 0 <= k < a.len() && #[trigger] a[k] ==> b[k]
}

proof fn lemma_explored_grows(scopes: Seq<Scope>, name: Seq<u8>, a: Seq<bool>, b: Seq<bool>, k: int)
    requires
        crate::env::environment::scopes_wf(scopes),
        a.len() == scopes.len(),
        0 <= k < scopes.len(),
        searched_grows(a, b),
        explored(scopes, name, a, k),
    ensures
        explored(scopes, name, b, k),
{
    assert forall|i: int| 0 <= i < scopes[k].name_spaces.wildcard_imports@.len() implies b[scopes[k].name_spaces.wildcard_imports@[i] as int] by {
        let w = scopes[k].name_spaces.wildcard_imports@[i] as int;
        assert(w < scopes.len());
        assert(a[w]);
    }
}

proof fn lemma_lexical_chain_bounded(scopes: Seq<Scope>, s: ScopeId, k: int)
    requires
        lexical_chain(scopes, s).contains(k),
    ensures
        0 <= k < scopes.len(),
    decreases s,
{
    if s < scopes.len() && s != GLOBAL_SCOPE && scopes[s as int].parent < s && k != s {
        lemma_lexical_chain_bounded(scopes, scopes[s as int].parent, k);
    }
}

/// Whether some scope declares the name, or has a module of that name, as `r`.
pub open spec fn found_in_some_scope(scopes: Seq<Scope>, name: Seq<u8>, r: SpecResolved) -> bool {
    exists|k: int| 0 <= k < scopes.len() && #[trigger] in_scope(scopes[k], name) == Some(r)
}

/// Finds what names stand for.
pub struct ResolveHelper;

impl ResolveHelper {
    /// Searches from the scope up to the global scope, through the parents, for what the
    /// name stands for: in each scope its declarations, then the declarations its wildcard
    /// imports bring (each imported module searched once), then its modules. Fails where two
    /// wildcard imports of one scope both provide the name, which two different scopes then
    /// have. What it finds, some scope has under the name; it finds nothing only where
    /// nothing within reach has the name.
    pub fn resolve(env: &Environment, scope: ScopeId, name: &[u8]) -> (res: Result<Option<Resolved>, EnvError>)
        requires
            env.wf(),
            scope < env.scopes@.len(),
        ensures
            env.scopes@[scope as int].name_spaces.declared.get_spec(name@) matches Some(d) ==> res matches Ok(Some(r))
                && r.spec() == SpecResolved::from_declared(d),
            lexically_declared(env.scopes@, scope, name@) matches Some(d) ==> res matches Ok(Some(r)) && r.spec()
                == SpecResolved::from_declared(d),
            res matches Ok(Some(Resolved::Module(m))) ==> m < env.scopes@.len(),
            res matches Ok(Some(r)) ==> !(r is InstanceAccess),
            res matches Ok(Some(r)) ==> found_in_some_scope(env.scopes@, name@, r.spec()),
            res == Ok::<Option<Resolved>, EnvError>(None) ==> found_nowhere(env.scopes@, scope, name@),
            res matches Err(e) ==> e matches EnvError::AmbiguousName(n) && n@ == name@ && found_twice(env.scopes@, name@),
            wildcards_clash(env.scopes@, scope as int, name@, Seq::new(env.scopes@.len(), |k: int| false)) ==> res is Err,
    {
        let mut searched: Vec<bool> = Vec::new();
        let mut k: usize = 0;
        while k < env.scopes.len()
            invariant
                k <= env.scopes@.len(),
                searched@.len() == k,
                forall|j: int| 0 <= j < k ==> !searched@[j],
            decreases env.scopes@.len() - k,
        {
            searched.push(false);
            k = k + 1;
        }
        let mut current = scope;
        let ghost mut visited: Set<int> = Set::empty();
        proof {
            assert(visited.union(lexical_chain(env.scopes@, current)) =~= lexical_chain(env.scopes@, scope));
        }
        loop
            invariant
                env.wf(),
                current < env.scopes@.len(),
                current <= scope,
                searched@.len() == env.scopes@.len(),
                scope < env.scopes@.len(),
                current == scope || env.scopes@[scope as int].name_spaces.declared.get_spec(name@) is None,
                lexically_declared(env.scopes@, scope, name@) is Some ==> lexically_declared(env.scopes@, current, name@)
                    == lexically_declared(env.scopes@, scope, name@),
                settled(env.scopes@, name@, searched@, Set::empty()),
                forall|k: int| #[trigger] visited.contains(k) ==> 0 <= k < env.scopes@.len() && explored(env.scopes@, name@, searched@, k),
                visited.union(lexical_chain(env.scopes@, current)) == lexical_chain(env.scopes@, scope),
                current == scope ==> forall|j: int| 0 <= j < searched@.len() ==> !#[trigger] searched@[j],
                wildcards_clash(env.scopes@, scope as int, name@, Seq::new(env.scopes@.len(), |k: int| false)) ==> current == scope,
            decreases current,
        {
            let ghost before = searched@;
            proof {
                if current == scope && wildcards_clash(env.scopes@, scope as int, name@, Seq::new(env.scopes@.len(), |k: int| false)) {
                    let ws = env.scopes@[scope as int].name_spaces.wildcard_imports@;
                    assert forall|k: int| 0 <= k < ws.len() implies !searched@[#[trigger] ws[k] as int] by {
                        assert(ws[k] < env.scopes@.len());
                    }
                    assert(wildcards_clash(env.scopes@, scope as int, name@, searched@));
                }
            }
            let found = Self::try_resolve_name(env, current, name, &mut searched, Ghost(Set::empty()))?;
            proof {
                assert(!wildcards_clash(env.scopes@, scope as int, name@, Seq::new(env.scopes@.len(), |k: int| false)));
            }
            if found.is_some() {
                return Ok(found);
            }
            proof {
                assert forall|k: int| #[trigger] visited.contains(k) implies 0 <= k < env.scopes@.len() && explored(
                    env.scopes@,
                    name@,
                    searched@,
                    k,
                ) by {
                    lemma_explored_grows(env.scopes@, name@, before, searched@, k);
                }
                visited = visited.insert(current as int);
            }
            if current == GLOBAL_SCOPE {
                proof {
                    let list = searched@;
                    let reach = Set::new(|k: int| 0 <= k < list.len() && list[k]).union(visited);
                    assert(lexical_chain(env.scopes@, current) =~= set![current as int]);
                    assert(lexical_chain(env.scopes@, scope) =~= visited);
                    assert forall|k: int| #[trigger] reach.contains(k) implies 0 <= k < env.scopes@.len() && forall|i: int|
                        0 <= i < env.scopes@[k].name_spaces.wildcard_imports@.len() ==> reach.contains(
                            env.scopes@[k].name_spaces.wildcard_imports@[i] as int,
                        ) by {
                        assert(explored(env.scopes@, name@, list, k));
                        assert forall|i: int| 0 <= i < env.scopes@[k].name_spaces.wildcard_imports@.len() implies reach.contains(
                            env.scopes@[k].name_spaces.wildcard_imports@[i] as int,
                        ) by {
                            let w = env.scopes@[k].name_spaces.wildcard_imports@[i] as int;
                            assert(w < env.scopes@.len());
                            assert(list[w]);
                        }
                    }
                    assert(reach_closed(env.scopes@, scope, reach));
                    assert forall|k: int| #[trigger] reach.contains(k) implies in_scope(env.scopes@[k], name@) is None by {
                        assert(explored(env.scopes@, name@, list, k));
                    }
                }
                return Ok(None);
            }
            proof {
                let p = env.scopes@[current as int].parent;
                assert(lexical_chain(env.scopes@, current) == lexical_chain(env.scopes@, p).insert(current as int));
                assert(visited.union(lexical_chain(env.scopes@, p)) =~= lexical_chain(env.scopes@, scope));
            }
            current = env.scopes[current].parent;
        }
    }

    /// What the name stands for in the scope itself or through its wildcard imports.
    fn try_resolve_name(
        env: &Environment,
        scope: ScopeId,
        name: &[u8],
        searched: &mut Vec<bool>,
        Ghost(pending): Ghost<Set<int>>,
    ) -> (res: Result<Option<Resolved>, EnvError>)
        requires
            env.wf(),
            scope < env.scopes@.len(),
            old(searched)@.len() == env.scopes@.len(),
        ensures
            final(searched)@.len() == env.scopes@.len(),
            searched_grows(old(searched)@, final(searched)@),
            settled(env.scopes@, name@, old(searched)@, pending) && res == Ok::<Option<Resolved>, EnvError>(None) ==> settled(
                env.scopes@,
                name@,
                final(searched)@,
                pending,
            ) && explored(env.scopes@, name@, final(searched)@, scope as int),
            env.scopes@[scope as int].name_spaces.declared.get_spec(name@) matches Some(d) ==> res matches Ok(Some(r))
                && r.spec() == SpecResolved::from_declared(d),
            count_false(final(searched)@) <= count_false(old(searched)@),
            res matches Ok(Some(Resolved::Module(m))) ==> m < env.scopes@.len(),
            res matches Ok(Some(r)) ==> !(r is InstanceAccess),
            res matches Ok(Some(r)) ==> found_in_some_scope(env.scopes@, name@, r.spec()),
            res matches Ok(Some(r)) ==> exists|o: int|
                origin_of(env.scopes@, name@, old(searched)@, final(searched)@, scope as int, o, r.spec()),
            res matches Err(e) ==> e matches EnvError::AmbiguousName(n) && n@ == name@ && found_twice(env.scopes@, name@),
            env.scopes@[scope as int].name_spaces.wildcard_imports@.len() == 0 ==> (res matches Ok(o) && match in_scope(
                env.scopes@[scope as int],
                name@,
            ) {
                Some(x) => o matches Some(r) && r.spec() == x,
                None => o is None,
            }),
            env.scopes@[scope as int].name_spaces.wildcard_imports@.len() == 0 ==> final(searched)@ == old(searched)@,
            wildcards_clash(env.scopes@, scope as int, name@, old(searched)@) ==> res is Err,
        decreases count_false(old(searched)@),
    {
        match Self::resolve_declared(env.get_scope(scope), name) {
            Some(r) => {
                proof {
                    assert(origin_of(env.scopes@, name@, searched@, searched@, scope as int, scope as int, r.spec()));
                }
                return Ok(Some(r));
            },
            None => {},
        }
        let wildcards = &env.scopes[scope].name_spaces.wildcard_imports;
        let mut resolved: Vec<Resolved> = Vec::new();
        let mut i: usize = 0;
        let ghost start = searched@;
        let ghost mut origins: Seq<int> = Seq::empty();
        let ghost clash = wildcards_clash(env.scopes@, scope as int, name@, old(searched)@);
        let ghost a = choose|a: int| exists|b: int|
            0 <= a < b < wildcards@.len() && (#[trigger] in_scope(env.scopes@[wildcards@[a] as int], name@)) is Some && (#[trigger] in_scope(
                env.scopes@[wildcards@[b] as int],
                name@,
            )) is Some;
        let ghost b = choose|b: int|
            0 <= a < b < wildcards@.len() && (#[trigger] in_scope(env.scopes@[wildcards@[a] as int], name@)) is Some && (#[trigger] in_scope(
                env.scopes@[wildcards@[b] as int],
                name@,
            )) is Some;
        while i < wildcards.len() && resolved.len() < 2
            invariant
                clash == wildcards_clash(env.scopes@, scope as int, name@, start),
                i == 0 ==> searched@ == start,
                clash ==> 0 <= a < b < wildcards@.len() && in_scope(env.scopes@[wildcards@[a] as int], name@) is Some && in_scope(
                    env.scopes@[wildcards@[b] as int],
                    name@,
                ) is Some,
                clash ==> forall|k: int| i <= k < wildcards@.len() ==> searched@[#[trigger] wildcards@[k] as int] == start[wildcards@[k] as int],
                clash ==> resolved@.len() >= (if a < i { 1int } else { 0int }) + (if b < i { 1int } else { 0int }),
                env.wf(),
                scope < env.scopes@.len(),
                wildcards == env.scopes@[scope as int].name_spaces.wildcard_imports,
                searched@.len() == env.scopes@.len(),
                env.scopes@[scope as int].name_spaces.declared.get_spec(name@) is None,
                count_false(searched@) <= count_false(old(searched)@),
                start == old(searched)@,
                searched_grows(start, searched@),
                resolved@.len() == 0 && settled(env.scopes@, name@, start, pending) ==> settled(
                    env.scopes@,
                    name@,
                    searched@,
                    pending,
                ),
                forall|j: int| 0 <= j < i ==> searched@[#[trigger] wildcards@[j] as int],
                i <= wildcards@.len(),
                origins.len() == resolved@.len(),
                forall|j: int|
                    0 <= j < origins.len() ==> 0 <= #[trigger] origins[j] < env.scopes@.len() && !start[origins[j]]
                        && searched@[origins[j]] && in_scope(env.scopes@[origins[j]], name@) == Some(resolved@[j].spec()),
                forall|a: int, b: int| 0 <= a < b < origins.len() ==> #[trigger] origins[a] != #[trigger] origins[b],
                resolved@.len() <= i,
                forall|j: int| 0 <= j < resolved@.len() ==> match #[trigger] resolved@[j] {
                    Resolved::Module(m) => m < env.scopes@.len(),
                    Resolved::InstanceAccess(..) => false,
                    _ => true,
                },
                forall|j: int| 0 <= j < resolved@.len() ==> found_in_some_scope(env.scopes@, name@, #[trigger] resolved@[j].spec()),
            decreases wildcards@.len() - i,
        {
            let scope_id = wildcards[i];
            let ghost at_iteration = searched@;
            proof {
                if clash {
                    assert(!start[wildcards@[i as int] as int]);
                    assert(env.scopes@[scope_id as int].name_spaces.wildcard_imports@.len() == 0);
                }
            }
            if !searched[scope_id] {
                let ghost before = searched@;
                searched.set(scope_id, true);
                let ghost marked = searched@;
                proof {
                    lemma_count_false_update(before, scope_id as int);
                    if resolved@.len() == 0 && settled(env.scopes@, name@, start, pending) {
                        assert forall|k: int|
                            0 <= k < marked.len() && #[trigger] marked[k] && !pending.insert(scope_id as int).contains(k)
                            implies explored(env.scopes@, name@, marked, k) by {
                            assert(before[k]);
                            lemma_explored_grows(env.scopes@, name@, before, marked, k);
                        }
                    }
                }
                let outcome = Self::try_resolve_name(env, scope_id, name, searched, Ghost(pending.insert(scope_id as int)));
                proof {
                    assert forall|k: int| 0 <= k < start.len() && #[trigger] start[k] implies searched@[k] by {
                        assert(before[k]);
                        assert(marked[k]);
                    }
                    assert forall|k: int| 0 <= k < at_iteration.len() && #[trigger] at_iteration[k] implies searched@[k] by {
                        assert(marked[k]);
                    }
                    assert(searched@[scope_id as int]) by {
                        assert(marked[scope_id as int]);
                    }
                }
                let found = outcome?;
                proof {
                    if resolved@.len() == 0 && settled(env.scopes@, name@, start, pending) && found is None {
                        assert forall|k: int|
                            0 <= k < searched@.len() && #[trigger] searched@[k] && !pending.contains(k)
                            implies explored(env.scopes@, name@, searched@, k) by {
                            if k != scope_id {
                                assert(!pending.insert(scope_id as int).contains(k));
                            }
                        }
                    }
                }
                match found {
                    Some(r) => {
                        proof {
                            let o = choose|o: int|
                                origin_of(env.scopes@, name@, marked, searched@, scope_id as int, o, r.spec());
                            assert(!at_iteration[o]) by {
                                if o != scope_id {
                                    assert(!marked[o]);
                                }
                            }
                            assert forall|j: int| 0 <= j < origins.len() implies #[trigger] origins[j] != o by {
                                assert(at_iteration[origins[j]]);
                            }
                            assert forall|j: int| 0 <= j < origins.len() implies #[trigger] searched@[origins[j]] by {
                                assert(at_iteration[origins[j]]);
                            }
                            assert(!start[o]) by {
                                if start[o] {
                                    assert(at_iteration[o]);
                                }
                            }
                            origins = origins.push(o);
                        }
                        resolved.push(r);
                    },
                    None => {
                        proof {
                            assert forall|j: int| 0 <= j < origins.len() implies #[trigger] searched@[origins[j]] by {
                                assert(at_iteration[origins[j]]);
                            }
                        }
                    },
                }
            }
            proof {
                assert forall|j: int| 0 <= j < i + 1 implies searched@[#[trigger] wildcards@[j] as int] by {
                    if j < i {
                        assert(at_iteration[wildcards@[j] as int]);
                    }
                }
                if clash {
                    assert forall|k: int| i + 1 <= k < wildcards@.len() implies searched@[#[trigger] wildcards@[k] as int]
                        == start[wildcards@[k] as int] by {
                        assert(wildcards@[k] != wildcards@[i as int]);
                        assert(at_iteration[wildcards@[k] as int] == start[wildcards@[k] as int]);
                    }
                }
            }
            i = i + 1;
        }
        proof {
            if clash {
                assert(resolved@.len() >= 2);
            }
        }
        if resolved.len() > 1 {
            proof {
                assert(origins[0] != origins[1]);
                assert(in_scope(env.scopes@[origins[0]], name@) is Some);
                assert(in_scope(env.scopes@[origins[1]], name@) is Some);
            }
            return Err(EnvError::AmbiguousName(copy_bytes(name)));
        }
        let ghost last = resolved@;
        match resolved.pop() {
            Some(r) => {
                proof {
                    assert(r == last[0]);
                    assert(origin_of(env.scopes@, name@, start, searched@, scope as int, origins[0], r.spec()));
                }
                Ok(Some(r))
            },
            None => {
                proof {
                    env.scopes@[scope as int].name_spaces.modules.lemma_get_is_entry(name@);
                }
                let found = Self::resolve_mod(env.get_scope(scope), name);
                proof {
                    if found is Some {
                        assert(origin_of(env.scopes@, name@, start, searched@, scope as int, scope as int, found->0.spec()));
                    }
                }
                Ok(found)
            },
        }
    }

    /// What the name stands for among the declarations of the scope.
    pub fn resolve_declared(scope: &Scope, name: &[u8]) -> (res: Option<Resolved>)
        ensures
            match scope.name_spaces.declared.get_spec(name@) {
                Some(d) => res matches Some(r) && r.spec() == SpecResolved::from_declared(d),
                None => res is None,
            },
    {
        let key = copy_bytes(name);
        match scope.name_spaces.declared.get(&key) {
            Some(d) => Some(Resolved::from_declared(*d)),
            None => None,
        }
    }

    /// The module that the name stands for among the modules of the scope.
    pub fn resolve_mod(scope: &Scope, name: &[u8]) -> (res: Option<Resolved>)
        ensures
            match scope.name_spaces.modules.get_spec(name@) {
                Some(m) => res matches Some(Resolved::Module(n)) && n == m,
                None => res is None,
            },
    {
        let key = copy_bytes(name);
        match scope.name_spaces.modules.get(&key) {
            Some(m) => Some(Resolved::Module(*m)),
            None => None,
        }
    }

    /// What the name stands for in a module: its declarations, then its modules.
    pub fn resolve_in_module(env: &Environment, module_scope: ScopeId, name: &[u8]) -> (res: Option<Resolved>)
        requires
            env.wf(),
            module_scope < env.scopes@.len(),
        ensures
            match in_scope(env.scopes@[module_scope as int], name@) {
                Some(s) => res matches Some(r) && r.spec() == s,
                None => res is None,
            },
            res matches Some(Resolved::Module(m)) ==> m < env.scopes@.len(),
            res matches Some(r) ==> !(r is InstanceAccess),
    {
        let scope = env.get_scope(module_scope);
        match Self::resolve_declared(scope, name) {
            Some(r) => Some(r),
            None => {
                proof {
                    scope.name_spaces.modules.lemma_get_is_entry(name@);
                }
                Self::resolve_mod(scope, name)
            },
        }
    }

    /// What a qualified name stands for, such as `self.field.attribute`, `constant.field` or
    /// `module1.module2.Struct`: the first component is resolved from the scope of the name,
    /// each next one in the module before it; from the first constant on, the rest are
    /// fields and attributes accessed on that constant.
    pub fn disambiguate(env: &Environment, name: &Name) -> (res: Result<Resolved, EnvError>)
        requires
            env.wf(),
        ensures
            res matches Ok(Resolved::Module(m)) ==> m < env.scopes@.len(),
            name.moniker@.len() == 0 ==> res is Err,
            res matches Ok(r) ==> exists|first: SpecResolved| follow_path(env.scopes@, first, name.path(), 1) == Some(r.spec()),
            name.moniker@.len() > 0 && name.scope < env.scopes@.len() ==> match env.scopes@[name.scope as int].name_spaces.declared.get_spec(
                name.path()[0],
            ) {
                Some(d) => match follow_path(env.scopes@, SpecResolved::from_declared(d), name.path(), 1) {
                    Some(r) => res matches Ok(x) && x.spec() == r,
                    None => res is Err,
                },
                None => true,
            },
    {
        if name.moniker.len() == 0 {
            return Err(EnvError::UnresolvableName(Vec::new()));
        }
        if name.scope >= env.scopes.len() {
            return Err(EnvError::InvalidState);
        }
        let first_component = &name.moniker[0];
        let mut last_resolved = match Self::resolve(env, name.scope, first_component.as_slice())? {
            Some(r) => r,
            None => {
                return Err(EnvError::UnresolvableName(copy_bytes(first_component.as_slice())));
            },
        };
        let ghost first = last_resolved.spec();
        let ghost path = name.path();
        let mut i: usize = 1;
        while i < name.moniker.len()
            invariant
                env.wf(),
                1 <= i <= name.moniker@.len(),
                path == name.path(),
                path.len() == name.moniker@.len(),
                last_resolved matches Resolved::Module(m) ==> m < env.scopes@.len(),
                !(last_resolved is InstanceAccess),
                follow_path(env.scopes@, last_resolved.spec(), path, i as int) == follow_path(env.scopes@, first, path, 1),
                name.scope < env.scopes@.len(),
                env.scopes@[name.scope as int].name_spaces.declared.get_spec(path[0]) matches Some(d) ==> first
                    == SpecResolved::from_declared(d),
            decreases name.moniker@.len() - i,
        {
            let component = &name.moniker[i];
            last_resolved = match last_resolved {
                Resolved::Module(module_scope) => {
                    match Self::resolve_in_module(env, module_scope, component.as_slice()) {
                        Some(r) => r,
                        None => {
                            return Err(EnvError::NotInModule(copy_bytes(component.as_slice())));
                        },
                    }
                },
                Resolved::Constant(constant) => {
                    let mut rest: Vec<Ident> = Vec::new();
                    let mut j = i;
                    while j < name.moniker.len()
                        invariant
                            i <= j <= name.moniker@.len(),
                            path == name.path(),
                            path_view(rest@) == path.subrange(i as int, j as int),
                        decreases name.moniker@.len() - j,
                    {
                        let ghost before = path_view(rest@);
                        rest.push(copy_bytes(name.moniker[j].as_slice()));
                        proof {
                            assert(path_view(rest@) =~= before.push(path[j as int]));
                            assert(path.subrange(i as int, j + 1) =~= path.subrange(i as int, j as int).push(path[j as int]));
                        }
                        j = j + 1;
                    }
                    return Ok(Resolved::InstanceAccess(constant, rest));
                },
                Resolved::Trait(_) | Resolved::Struct(_) => {
                    return Err(EnvError::FieldOfTypeDefinition(copy_bytes(component.as_slice())));
                },
                Resolved::InstanceAccess(..) => {
                    return Err(EnvError::InvalidState);
                },
            };
            i = i + 1;
        }
        Ok(last_resolved)
    }
}

} // verus!
