//! Finds structs that contain themselves through the types of their fields.
use crate::ast::{AbstractSyntaxTree, DeclId, Declaration, Field};
use crate::env::checks::type_checking::type_resolver::{resolve_type_name, spec_resolve_type_name};
use crate::env::checks::type_checking::types::Types;
use crate::env::checks::Error;
use crate::env::construction::scope_operations::MAX_NESTING;
use crate::env::environment::Environment;
use crate::env::error::EnvError;
use crate::names::{copy_bytes, join_path};
use vstd::prelude::*;

verus! {

/// Whether the id names a struct of the trees.
pub open spec fn struct_exists(trees: Seq<AbstractSyntaxTree>, d: DeclId) -> bool {
    d.tree < trees.len() && d.index < trees[d.tree as int].structs@.len()
}

/// Whether the result is the error for a struct met again while its own fields are being
/// followed: the cycle, named by the struct.
pub open spec fn is_cycle_error(trees: Seq<AbstractSyntaxTree>, d: DeclId, res: Result<(), EnvError>) -> bool {
    res matches Err(EnvError::StructHierarchy(Error::StructCycleDependency(n)))
        && n@ == trees[d.tree as int].structs@[d.index as int].name@
}

/// Whether struct `a` has a field whose type is the struct `b` itself, not a collection of
/// it.
pub open spec fn field_struct(env: &Environment, trees: Seq<AbstractSyntaxTree>, a: DeclId, b: DeclId) -> bool {
    &&& struct_exists(trees, a)
    &&& exists|f: int|
        0 <= f < trees[a.tree as int].structs@[a.index as int].fields@.len() && #[trigger] field_of_struct(
            env,
            trees[a.tree as int].structs@[a.index as int].fields@[f],
            b,
        )
}

/// Whether the type of the field is the struct `b` itself.
pub open spec fn field_of_struct(env: &Environment, field: Field, b: DeclId) -> bool {
    spec_resolve_type_name(env, &field.field_type.name, field.field_type.is_collection) == Some(Some(Types::Struct(b)))
}

/// Each struct of the list comes after the structs of its fields.
pub open spec fn fields_first(env: &Environment, trees: Seq<AbstractSyntaxTree>, list: Seq<DeclId>) -> bool {
    forall|j: int, b: DeclId| 0 <= j < list.len() && #[trigger] field_struct(env, trees, list[j], b) ==> list.take(j).contains(b)
}

/// Whether a declaration at the top of its tree declares the struct.
pub open spec fn declared_struct(trees: Seq<AbstractSyntaxTree>, a: DeclId) -> bool {
    &&& a.tree < trees.len()
    &&& exists|i: int|
        0 <= i < trees[a.tree as int].compilation_unit.declarations@.len()
            && #[trigger] trees[a.tree as int].compilation_unit.declarations@[i] == Declaration::Struct(a.index)
}

/// Each declared struct ranks above the structs of its fields.
pub open spec fn hierarchy_ranked(env: &Environment, trees: Seq<AbstractSyntaxTree>, rank: spec_fn(DeclId) -> nat) -> bool {
    forall|a: DeclId, b: DeclId| declared_struct(trees, a) && #[trigger] field_struct(env, trees, a, b) ==> rank(b) < rank(a)
}

/// No declared struct contains itself, directly or through the structs of its fields: the
/// structs can be ranked so that each ranks above the structs of its fields.
pub open spec fn hierarchy_acyclic(env: &Environment, trees: Seq<AbstractSyntaxTree>) -> bool {
    exists|rank: spec_fn(DeclId) -> nat| hierarchy_ranked(env, trees, rank)
}

/// Where the hierarchy has no cycle, no declared struct has a field whose type is that
/// struct itself.
pub proof fn lemma_no_struct_contains_itself(env: &Environment, trees: Seq<AbstractSyntaxTree>, a: DeclId)
    requires
        hierarchy_acyclic(env, trees),
        declared_struct(trees, a),
    ensures
        !field_struct(env, trees, a, a),
{
    let rank = choose|rank: spec_fn(DeclId) -> nat| hierarchy_ranked(env, trees, rank);
    if field_struct(env, trees, a, a) {
        assert(rank(a) < rank(a));
    }
}

/// The position of the first occurrence of the id in the list.
pub open spec fn first_position(list: Seq<DeclId>, d: DeclId) -> nat
    decreases list.len(),
{
    if list.len() == 0 {
        0
    } else if list.drop_last().contains(d) {
        first_position(list.drop_last(), d)
    } else {
        (list.len() - 1) as nat
    }
}

proof fn lemma_first_position(list: Seq<DeclId>, d: DeclId, k: int)
    requires
        0 <= k < list.len(),
        list[k] == d,
    ensures
        first_position(list, d) <= k,
        list[first_position(list, d) as int] == d,
    decreases list.len(),
{
    let rest = list.drop_last();
    if rest.contains(d) {
        let k2 = choose|k2: int| 0 <= k2 < rest.len() && rest[k2] == d;
        lemma_first_position(rest, d, k2);
        if k < list.len() - 1 {
            lemma_first_position(rest, d, k);
        }
    } else {
        if k < list.len() - 1 {
            assert(rest[k] == d);
        }
    }
}

fn contains_id(ids: &Vec<DeclId>, d: DeclId) -> (r: bool)
    ensures
        r == ids@.contains(d),
{
    let mut i: usize = 0;
    while i < ids.len()
        invariant
            i <= ids@.len(),
            forall|j: int| 0 <= j < i ==> ids@[j] != d,
        decreases ids@.len() - i,
    {
        if ids[i] == d {
            assert(ids@[i as int] == d);
            return true;
        }
        i = i + 1;
    }
    false
}

/// Follows the struct-typed fields of structs, depth first.
pub struct StructHierarchyChecker<'e> {
    /// The structs whose fields are being followed.
    pub declaring: Vec<DeclId>,
    pub environment: &'e Environment,
    pub syntax_trees: &'e Vec<AbstractSyntaxTree>,
}

/// Whether no tree declares a struct.
pub open spec fn declares_no_struct(trees: Seq<AbstractSyntaxTree>) -> bool {
    forall|t: int, i: int|
        0 <= t < trees.len() && 0 <= i < trees[t].compilation_unit.declarations@.len()
            ==> !(#[trigger] trees[t].compilation_unit.declarations@[i] is Struct)
}

/// The structs are ranked by `rank`: the type of every field of every struct resolves,
/// and a struct that is the type of a field is a struct of lower rank.
pub open spec fn well_ranked(env: &Environment, trees: Seq<AbstractSyntaxTree>, rank: spec_fn(DeclId) -> nat) -> bool {
    &&& forall|a: DeclId, f: int|
        struct_exists(trees, a) && 0 <= f < trees[a.tree as int].structs@[a.index as int].fields@.len() ==> (spec_resolve_type_name(
            env,
            &(#[trigger] trees[a.tree as int].structs@[a.index as int].fields@[f]).field_type.name,
            trees[a.tree as int].structs@[a.index as int].fields@[f].field_type.is_collection,
        ) matches Some(Some(_)))
    &&& forall|a: DeclId, b: DeclId| #[trigger] field_struct(env, trees, a, b) ==> struct_exists(trees, b) && rank(b) < rank(a)
}

/// The declaration is a struct that has a field whose type is the struct itself.
pub open spec fn contains_itself(env: &Environment, trees: Seq<AbstractSyntaxTree>, tree: int, d: Declaration) -> bool {
    d matches Declaration::Struct(s) && field_struct(env, trees, DeclId { tree: tree as usize, index: s }, DeclId { tree: tree as usize, index: s })
}

/// Some declared struct has a field whose type is the struct itself.
pub open spec fn declares_self_containing_struct(env: &Environment, trees: Seq<AbstractSyntaxTree>) -> bool {
    exists|t: int, i: int|
        0 <= t < trees.len() && 0 <= i < trees[t].compilation_unit.declarations@.len() && #[trigger] contains_itself(
            env,
            trees,
            t,
            trees[t].compilation_unit.declarations@[i],
        )
}

/// The structs off the white list are ranked by `rank`: each has fields whose types
/// resolve, and a struct that is the type of one of its fields exists and is on the white
/// list or of lower rank.
pub open spec fn ranked_outside(env: &Environment, trees: Seq<AbstractSyntaxTree>, rank: spec_fn(DeclId) -> nat, white_list: Seq<DeclId>) -> bool {
    &&& forall|a: DeclId, f: int|
        struct_exists(trees, a) && !white_list.contains(a) && 0 <= f < trees[a.tree as int].structs@[a.index as int].fields@.len()
            ==> (spec_resolve_type_name(
            env,
            &(#[trigger] trees[a.tree as int].structs@[a.index as int].fields@[f]).field_type.name,
            trees[a.tree as int].structs@[a.index as int].fields@[f].field_type.is_collection,
        ) matches Some(Some(_)))
    &&& forall|a: DeclId, b: DeclId|
        #[trigger] field_struct(env, trees, a, b) && !white_list.contains(a) ==> struct_exists(trees, b) && (white_list.contains(b)
            || rank(b) < rank(a))
}

/// Following `d` can pass, with the structs off the white list ranked by `rank`: `d`
/// exists, and unless it is on the white list, it ranks below `fuel` and below each
/// struct being followed; none of those is on the white list.
pub open spec fn checkable_outside(
    env: &Environment,
    trees: Seq<AbstractSyntaxTree>,
    rank: spec_fn(DeclId) -> nat,
    white_list: Seq<DeclId>,
    declaring: Seq<DeclId>,
    d: DeclId,
    fuel: nat,
) -> bool {
    &&& ranked_outside(env, trees, rank, white_list)
    &&& struct_exists(trees, d)
    &&& white_list.contains(d) || rank(d) < fuel
    &&& forall|x: DeclId| declaring.contains(x) ==> !white_list.contains(x) && (white_list.contains(d) || rank(x) > rank(d))
}

/// Every struct in `declaring` is off the white list and ranks above `d`.
pub open spec fn above_unlisted(declaring: Seq<DeclId>, white_list: Seq<DeclId>, rank: spec_fn(DeclId) -> nat, d: DeclId) -> bool {
    forall|x: DeclId| declaring.contains(x) ==> !white_list.contains(x) && rank(x) > rank(d)
}

proof fn lemma_ranked_outside_grows(
    env: &Environment,
    trees: Seq<AbstractSyntaxTree>,
    rank: spec_fn(DeclId) -> nat,
    a: Seq<DeclId>,
    b: Seq<DeclId>,
)
    requires
        ranked_outside(env, trees, rank, a),
        forall|d: DeclId| a.contains(d) ==> b.contains(d),
    ensures
        ranked_outside(env, trees, rank, b),
{
}

/// The hierarchy check can pass: every declared struct exists, and the structs can be
/// ranked, each below the nesting bound.
pub open spec fn hierarchy_checkable(env: &Environment, trees: Seq<AbstractSyntaxTree>) -> bool {
    &&& forall|t: int, i: int|
        0 <= t < trees.len() && 0 <= i < trees[t].compilation_unit.declarations@.len()
            ==> match #[trigger] trees[t].compilation_unit.declarations@[i] {
            Declaration::Struct(s) => struct_exists(trees, DeclId { tree: t as usize, index: s }),
            _ => true,
        }
    &&& exists|rank: spec_fn(DeclId) -> nat|
        #[trigger] well_ranked(env, trees, rank) && forall|a: DeclId| #[trigger] struct_exists(trees, a) ==> rank(a) < MAX_NESTING
}

/// Every field of the struct has a type that resolves, and none of them is a struct itself
/// (a collection of structs may be).
pub open spec fn fields_flat(env: &Environment, trees: Seq<AbstractSyntaxTree>, d: DeclId) -> bool {
    forall|f: int|
        0 <= f < trees[d.tree as int].structs@[d.index as int].fields@.len() ==> (spec_resolve_type_name(
            env,
            &(#[trigger] trees[d.tree as int].structs@[d.index as int].fields@[f]).field_type.name,
            trees[d.tree as int].structs@[d.index as int].fields@[f].field_type.is_collection,
        ) matches Some(Some(t)) && !(t is Struct))
}

/// Each tree declares a struct at most once, and every struct declared exists and has no
/// field whose type is a struct.
pub open spec fn flat_structs(env: &Environment, trees: Seq<AbstractSyntaxTree>) -> bool {
    &&& forall|t: int, i: int|
        0 <= t < trees.len() && 0 <= i < trees[t].compilation_unit.declarations@.len()
            ==> match #[trigger] trees[t].compilation_unit.declarations@[i] {
            Declaration::Struct(s) => struct_exists(trees, DeclId { tree: t as usize, index: s }) && fields_flat(
                env,
                trees,
                DeclId { tree: t as usize, index: s },
            ),
            _ => true,
        }
    &&& forall|t: int, i: int, j: int|
        0 <= t < trees.len() && 0 <= i < j < trees[t].compilation_unit.declarations@.len()
            && (#[trigger] trees[t].compilation_unit.declarations@[i]) is Struct
            ==> #[trigger] trees[t].compilation_unit.declarations@[j] != trees[t].compilation_unit.declarations@[i]
}

impl<'e> StructHierarchyChecker<'e> {
    /// A checker for the environment and the trees it was built from.
    pub fn with_environment(environment: &'e Environment, syntax_trees: &'e Vec<AbstractSyntaxTree>) -> (c: Self)
        ensures
            c.environment == environment,
            c.syntax_trees == syntax_trees,
            c.declaring@.len() == 0,
    {
        StructHierarchyChecker { declaring: Vec::new(), environment, syntax_trees }
    }

    /// Checks every struct that the trees declare, in their order, with one list of structs
    /// found free of cycles. Fails on the first struct met again while its own fields are
    /// followed.
    pub fn check(&mut self) -> (res: Result<(), EnvError>)
        requires
            old(self).environment.wf(),
        ensures
            final(self).environment == old(self).environment,
            final(self).syntax_trees == old(self).syntax_trees,
            res is Ok ==> forall|t: int, i: int|
                0 <= t < old(self).syntax_trees@.len() && 0 <= i < old(self).syntax_trees@[t].compilation_unit.declarations@.len()
                ==> match #[trigger] old(self).syntax_trees@[t].compilation_unit.declarations@[i] {
                    Declaration::Struct(s) => struct_exists(old(self).syntax_trees@, DeclId { tree: t as usize, index: s }),
                    _ => true,
                },
            res is Ok ==> hierarchy_acyclic(old(self).environment, old(self).syntax_trees@),
            declares_no_struct(old(self).syntax_trees@) ==> res is Ok,
            old(self).declaring@.len() == 0 && flat_structs(old(self).environment, old(self).syntax_trees@) ==> res is Ok,
            old(self).declaring@.len() == 0 && hierarchy_checkable(old(self).environment, old(self).syntax_trees@) ==> res is Ok,
            declares_self_containing_struct(old(self).environment, old(self).syntax_trees@) ==> res is Err,
    {
        let trees = self.syntax_trees;
        let mut white_list: Vec<DeclId> = Vec::new();
        let ghost checkable = old(self).declaring@.len() == 0 && hierarchy_checkable(old(self).environment, old(self).syntax_trees@);
        let ghost rank = choose|rank: spec_fn(DeclId) -> nat|
            well_ranked(old(self).environment, old(self).syntax_trees@, rank) && forall|a: DeclId|
                #[trigger] struct_exists(old(self).syntax_trees@, a) ==> rank(a) < MAX_NESTING;
        let ghost flat = old(self).declaring@.len() == 0 && flat_structs(old(self).environment, old(self).syntax_trees@);
        let mut tree: usize = 0;
        while tree < trees.len()
            invariant
                self.environment.wf(),
                self.environment == old(self).environment,
                self.syntax_trees == trees,
                trees == old(self).syntax_trees,
                forall|t: int, i: int|
                    0 <= t < tree && 0 <= i < trees@[t].compilation_unit.declarations@.len()
                    ==> match #[trigger] trees@[t].compilation_unit.declarations@[i] {
                        Declaration::Struct(s) => struct_exists(trees@, DeclId { tree: t as usize, index: s })
                            && white_list@.contains(DeclId { tree: t as usize, index: s }),
                        _ => true,
                    },
                fields_first(self.environment, trees@, white_list@),
                flat == (old(self).declaring@.len() == 0 && flat_structs(old(self).environment, old(self).syntax_trees@)),
                flat ==> self.declaring@.len() == 0,
                flat ==> forall|d: DeclId| #[trigger] white_list@.contains(d) ==> d.tree < tree,
                self.declaring@ == old(self).declaring@,
                checkable == (old(self).declaring@.len() == 0 && hierarchy_checkable(old(self).environment, old(self).syntax_trees@)),
                checkable ==> well_ranked(old(self).environment, old(self).syntax_trees@, rank) && forall|a: DeclId|
                    #[trigger] struct_exists(old(self).syntax_trees@, a) ==> rank(a) < MAX_NESTING,
                forall|d: DeclId| white_list@.contains(d) ==> !#[trigger] field_struct(self.environment, trees@, d, d),
                forall|t: int, k: int|
                    0 <= t < tree && 0 <= k < trees@[t].compilation_unit.declarations@.len() ==> !#[trigger] contains_itself(
                        self.environment,
                        trees@,
                        t,
                        trees@[t].compilation_unit.declarations@[k],
                    ),
            decreases trees@.len() - tree,
        {
            let declarations = &trees[tree].compilation_unit.declarations;
            let mut i: usize = 0;
            while i < declarations.len()
                invariant
                    self.environment.wf(),
                    self.environment == old(self).environment,
                    self.syntax_trees == trees,
                    trees == old(self).syntax_trees,
                    tree < trees@.len(),
                    declarations == trees@[tree as int].compilation_unit.declarations,
                    forall|t: int, k: int|
                        0 <= t < tree && 0 <= k < trees@[t].compilation_unit.declarations@.len()
                        ==> match #[trigger] trees@[t].compilation_unit.declarations@[k] {
                            Declaration::Struct(s) => struct_exists(trees@, DeclId { tree: t as usize, index: s })
                                && white_list@.contains(DeclId { tree: t as usize, index: s }),
                            _ => true,
                        },
                    forall|k: int|
                        0 <= k < i ==> match #[trigger] declarations@[k] {
                            Declaration::Struct(s) => struct_exists(trees@, DeclId { tree: tree, index: s })
                                && white_list@.contains(DeclId { tree: tree, index: s }),
                            _ => true,
                        },
                    fields_first(self.environment, trees@, white_list@),
                    flat == (old(self).declaring@.len() == 0 && flat_structs(old(self).environment, old(self).syntax_trees@)),
                    flat ==> self.declaring@.len() == 0,
                    self.declaring@ == old(self).declaring@,
                    checkable == (old(self).declaring@.len() == 0 && hierarchy_checkable(old(self).environment, old(self).syntax_trees@)),
                    checkable ==> well_ranked(old(self).environment, old(self).syntax_trees@, rank) && forall|a: DeclId|
                        #[trigger] struct_exists(old(self).syntax_trees@, a) ==> rank(a) < MAX_NESTING,
                    flat ==> forall|d: DeclId| #[trigger] white_list@.contains(d) ==> d.tree < tree || (d.tree == tree
                        && exists|k: int| 0 <= k < i && declarations@[k] == Declaration::Struct(d.index)),
                    forall|d: DeclId| white_list@.contains(d) ==> !#[trigger] field_struct(self.environment, trees@, d, d),
                    forall|t: int, k: int|
                        0 <= t < tree && 0 <= k < trees@[t].compilation_unit.declarations@.len() ==> !#[trigger] contains_itself(
                            self.environment,
                            trees@,
                            t,
                            trees@[t].compilation_unit.declarations@[k],
                        ),
                    forall|k: int| 0 <= k < i ==> !#[trigger] contains_itself(self.environment, trees@, tree as int, declarations@[k]),
                decreases declarations@.len() - i,
            {
                assert(declares_no_struct(trees@) ==> !(trees@[tree as int].compilation_unit.declarations@[i as int] is Struct));
                match &declarations[i] {
                    Declaration::Struct(s) => {
                        let ghost before = white_list@;
                        proof {
                            if flat {
                                let d = DeclId { tree, index: *s };
                                assert(trees@[tree as int].compilation_unit.declarations@[i as int] == Declaration::Struct(*s));
                                if before.contains(d) {
                                    let k = choose|k: int| 0 <= k < i && declarations@[k] == Declaration::Struct(d.index);
                                    assert(trees@[tree as int].compilation_unit.declarations@[k] is Struct);
                                    assert(false);
                                }
                                assert(self.declaring@.len() == 0);
                                assert(!self.declaring@.contains(d));
                            }
                        }
                        proof {
                            if checkable {
                                assert(trees@[tree as int].compilation_unit.declarations@[i as int] == Declaration::Struct(*s));
                                assert(struct_exists(trees@, DeclId { tree, index: *s }));
                            }
                        }
                        self.recursively_check(DeclId { tree, index: *s }, &mut white_list, MAX_NESTING, Ghost(rank))?;
                        proof {
                            assert forall|d: DeclId| before.contains(d) implies white_list@.contains(d) by {}
                            assert forall|d: DeclId| white_list@.contains(d) implies !#[trigger] field_struct(self.environment, trees@, d, d) by {
                                if !before.contains(d) {
                                }
                            }
                            assert(!field_struct(self.environment, trees@, DeclId { tree, index: *s }, DeclId { tree, index: *s })) by {
                                if before.contains(DeclId { tree, index: *s }) {
                                }
                            }
                            assert(declarations@[i as int] == Declaration::Struct(*s));
                            if flat {
                                assert forall|d: DeclId| #[trigger] white_list@.contains(d) implies d.tree < tree || (d.tree
                                    == tree && exists|k: int| 0 <= k < i + 1 && declarations@[k] == Declaration::Struct(d.index)) by {
                                    if before.contains(d) {
                                        if d.tree == tree {
                                            let k = choose|k: int| 0 <= k < i && declarations@[k] == Declaration::Struct(d.index);
                                            assert(0 <= k < i + 1 && declarations@[k] == Declaration::Struct(d.index));
                                        }
                                    } else {
                                        let j = choose|j: int| 0 <= j < white_list@.len() && white_list@[j] == d;
                                        assert(white_list@ == before.push(DeclId { tree, index: *s }));
                                        assert(j == before.len());
                                        assert(declarations@[i as int] == Declaration::Struct(d.index));
                                    }
                                }
                            }
                        }
                    },
                    _ => {},
                }
                i = i + 1;
            }
            proof {
                assert forall|t: int, k: int|
                    0 <= t < tree + 1 && 0 <= k < trees@[t].compilation_unit.declarations@.len() implies !#[trigger] contains_itself(
                        self.environment,
                        trees@,
                        t,
                        trees@[t].compilation_unit.declarations@[k],
                    ) by {
                    if t == tree {
                        assert(trees@[t].compilation_unit.declarations@[k] == declarations@[k]);
                    }
                }
            }
            tree = tree + 1;
        }
        proof {
            let list = white_list@;
            let rank = |d: DeclId| first_position(list, d);
            assert forall|a: DeclId, b: DeclId| declared_struct(trees@, a) && #[trigger] field_struct(
                self.environment,
                trees@,
                a,
                b,
            ) implies rank(b) < rank(a) by {
                let i = choose|i: int|
                    0 <= i < trees@[a.tree as int].compilation_unit.declarations@.len()
                        && #[trigger] trees@[a.tree as int].compilation_unit.declarations@[i] == Declaration::Struct(a.index);
                assert(list.contains(a));
                let ka = choose|ka: int| 0 <= ka < list.len() && list[ka] == a;
                lemma_first_position(list, a, ka);
                let p = first_position(list, a) as int;
                assert(field_struct(self.environment, trees@, list[p], b));
                assert(list.take(p).contains(b));
                let kb = choose|kb: int| 0 <= kb < list.take(p).len() && list.take(p)[kb] == b;
                lemma_first_position(list, b, kb);
            }
            assert(hierarchy_ranked(self.environment, trees@, rank));
        }
        Ok(())
    }

    /// Follows the fields of one struct, with the structs already found free of cycles.
    pub fn test_recursively_check(&mut self, declaration: DeclId, white_list: &mut Vec<DeclId>) -> (res: Result<(), EnvError>)
        requires
            old(self).environment.wf(),
        ensures
            final(self).environment == old(self).environment,
            final(self).syntax_trees == old(self).syntax_trees,
            !struct_exists(old(self).syntax_trees@, declaration) ==> res == Err::<(), EnvError>(EnvError::InvalidState),
            struct_exists(old(self).syntax_trees@, declaration) && old(self).declaring@.contains(declaration)
                ==> is_cycle_error(old(self).syntax_trees@, declaration, res)
                    && final(white_list)@ == old(white_list)@,
            struct_exists(old(self).syntax_trees@, declaration) && !old(self).declaring@.contains(declaration)
                && old(white_list)@.contains(declaration) ==> res is Ok && final(white_list)@ == old(white_list)@
                    && final(self).declaring@ == old(self).declaring@,
            res is Ok ==> final(self).declaring@ == old(self).declaring@,
            res is Ok ==> struct_exists(old(self).syntax_trees@, declaration) && final(white_list)@.contains(declaration),
            forall|d: DeclId| old(white_list)@.contains(d) ==> final(white_list)@.contains(d),
            forall|rank: spec_fn(DeclId) -> nat|
                #[trigger] well_ranked(old(self).environment, old(self).syntax_trees@, rank) && struct_exists(
                    old(self).syntax_trees@,
                    declaration,
                ) && rank(declaration) < MAX_NESTING && (forall|x: DeclId| old(self).declaring@.contains(x) ==> rank(x) > rank(declaration))
                    ==> res is Ok,
            forall|rank: spec_fn(DeclId) -> nat|
                #[trigger] checkable_outside(
                    old(self).environment,
                    old(self).syntax_trees@,
                    rank,
                    old(white_list)@,
                    old(self).declaring@,
                    declaration,
                    MAX_NESTING as nat,
                ) ==> res is Ok,
            field_struct(old(self).environment, old(self).syntax_trees@, declaration, declaration) && !old(white_list)@.contains(
                declaration,
            ) ==> res is Err,
    {
        let ghost rank = if exists|rank: spec_fn(DeclId) -> nat|
            checkable_outside(self.environment, self.syntax_trees@, rank, white_list@, self.declaring@, declaration, MAX_NESTING as nat) {
            choose|rank: spec_fn(DeclId) -> nat|
                checkable_outside(self.environment, self.syntax_trees@, rank, white_list@, self.declaring@, declaration, MAX_NESTING as nat)
        } else {
            choose|rank: spec_fn(DeclId) -> nat|
                well_ranked(self.environment, self.syntax_trees@, rank) && rank(declaration) < MAX_NESTING && (forall|x: DeclId|
                    self.declaring@.contains(x) ==> rank(x) > rank(declaration))
        };
        self.recursively_check(declaration, white_list, MAX_NESTING, Ghost(rank))
    }

    /// Marks the struct as being followed, follows each field whose type is a struct, then
    /// adds the struct to the white list and unmarks it. A struct already being followed is
    /// a cycle; a struct on the white list is not followed again. Where the structs can be
    /// ranked by `rank`, with this one below the fuel and below every struct being
    /// followed, the check passes.
    fn recursively_check(
        &mut self,
        declaration: DeclId,
        white_list: &mut Vec<DeclId>,
        fuel: usize,
        Ghost(rank): Ghost<spec_fn(DeclId) -> nat>,
    ) -> (res: Result<(), EnvError>)
        requires
            old(self).environment.wf(),
        ensures
            final(self).environment == old(self).environment,
            final(self).syntax_trees == old(self).syntax_trees,
            !struct_exists(old(self).syntax_trees@, declaration) ==> res == Err::<(), EnvError>(EnvError::InvalidState),
            struct_exists(old(self).syntax_trees@, declaration) && old(self).declaring@.contains(declaration)
                ==> is_cycle_error(old(self).syntax_trees@, declaration, res)
                    && final(white_list)@ == old(white_list)@,
            struct_exists(old(self).syntax_trees@, declaration) && !old(self).declaring@.contains(declaration)
                && old(white_list)@.contains(declaration) ==> res is Ok && final(white_list)@ == old(white_list)@
                    && final(self).declaring@ == old(self).declaring@,
            res is Ok ==> final(self).declaring@ == old(self).declaring@,
            res is Ok ==> struct_exists(old(self).syntax_trees@, declaration) && final(white_list)@.contains(declaration),
            forall|d: DeclId| old(white_list)@.contains(d) ==> final(white_list)@.contains(d),
            old(white_list)@.len() <= final(white_list)@.len(),
            final(white_list)@.take(old(white_list)@.len() as int) == old(white_list)@,
            fields_first(old(self).environment, old(self).syntax_trees@, old(white_list)@) ==> fields_first(
                old(self).environment,
                old(self).syntax_trees@,
                final(white_list)@,
            ),
            struct_exists(old(self).syntax_trees@, declaration) && !old(self).declaring@.contains(declaration)
                && !old(white_list)@.contains(declaration) && fields_flat(old(self).environment, old(self).syntax_trees@, declaration)
                ==> res is Ok && final(self).declaring@ == old(self).declaring@ && final(white_list)@ == old(white_list)@.push(
                declaration,
            ),
            well_ranked(old(self).environment, old(self).syntax_trees@, rank) && struct_exists(old(self).syntax_trees@, declaration)
                && rank(declaration) < fuel && (forall|x: DeclId| old(self).declaring@.contains(x) ==> rank(x) > rank(declaration))
                ==> res is Ok,
            checkable_outside(
                old(self).environment,
                old(self).syntax_trees@,
                rank,
                old(white_list)@,
                old(self).declaring@,
                declaration,
                fuel as nat,
            ) ==> res is Ok,
            res is Ok ==> forall|x: DeclId|
                old(self).declaring@.contains(x) && final(white_list)@.contains(x) ==> old(white_list)@.contains(x),
            field_struct(old(self).environment, old(self).syntax_trees@, declaration, declaration) && !old(white_list)@.contains(
                declaration,
            ) ==> res is Err,
            forall|d: DeclId|
                final(white_list)@.contains(d) && !old(white_list)@.contains(d) ==> !#[trigger] field_struct(
                    old(self).environment,
                    old(self).syntax_trees@,
                    d,
                    d,
                ),
        decreases fuel,
    {
        let trees = self.syntax_trees;
        let environment = self.environment;
        if declaration.tree >= trees.len() || declaration.index >= trees[declaration.tree].structs.len() {
            return Err(EnvError::InvalidState);
        }
        let structure = &trees[declaration.tree].structs[declaration.index];
        if contains_id(&self.declaring, declaration) {
            return Err(EnvError::StructHierarchy(Error::StructCycleDependency(copy_bytes(structure.name.as_slice()))));
        }
        if contains_id(white_list, declaration) {
            return Ok(());
        }
        let ghost declaring_before = self.declaring@;
        self.declaring.push(declaration);
        let ghost start_list = white_list@;
        let ghost flat = fields_flat(environment, trees@, declaration);
        let ghost ranked = well_ranked(environment, trees@, rank) && rank(declaration) < fuel && (forall|x: DeclId|
            old(self).declaring@.contains(x) ==> rank(x) > rank(declaration));
        let ghost outside_ranked = ranked_outside(environment, trees@, rank, start_list);
        let ghost outside_fuel = rank(declaration) < fuel;
        let ghost outside_above = above_unlisted(declaring_before, start_list, rank, declaration);
        let ghost outside = outside_ranked && outside_fuel && outside_above;
        let ghost premise = checkable_outside(environment, trees@, rank, start_list, declaring_before, declaration, fuel as nat);
        proof {
            assert(white_list@.take(start_list.len() as int) =~= start_list);
            if premise {
                assert(!start_list.contains(declaration));
                assert(above_unlisted(declaring_before, start_list, rank, declaration)) by {
                    assert forall|x: DeclId| declaring_before.contains(x) implies !start_list.contains(x) && rank(x) > rank(declaration) by {}
                }
            }
        }
        let mut i: usize = 0;
        while i < structure.fields.len()
            invariant
                self.environment == environment,
                self.syntax_trees == trees,
                environment == old(self).environment,
                trees == old(self).syntax_trees,
                environment.wf(),
                start_list == old(white_list)@,
                forall|d: DeclId| start_list.contains(d) ==> white_list@.contains(d),
                struct_exists(trees@, declaration),
                !old(self).declaring@.contains(declaration),
                !start_list.contains(declaration),
                structure == trees@[declaration.tree as int].structs@[declaration.index as int],
                i <= structure.fields@.len(),
                start_list.len() <= white_list@.len(),
                white_list@.take(start_list.len() as int) == start_list,
                fields_first(environment, trees@, start_list) ==> fields_first(environment, trees@, white_list@),
                forall|k: int, b: DeclId|
                    0 <= k < i && #[trigger] field_of_struct(environment, structure.fields@[k], b) ==> white_list@.contains(b),
                flat == fields_flat(environment, trees@, declaration),
                self.declaring@ == old(self).declaring@.push(declaration),
                flat ==> white_list@ == start_list,
                ranked == (well_ranked(environment, trees@, rank) && rank(declaration) < fuel && (forall|x: DeclId|
                    old(self).declaring@.contains(x) ==> rank(x) > rank(declaration))),
                forall|k: int| 0 <= k < i ==> !#[trigger] field_of_struct(environment, structure.fields@[k], declaration),
                forall|d: DeclId| white_list@.contains(d) && !start_list.contains(d) ==> !#[trigger] field_struct(environment, trees@, d, d),
                forall|x: DeclId| self.declaring@.contains(x) && white_list@.contains(x) ==> start_list.contains(x),
                outside ==> rank(declaration) < fuel && (forall|x: DeclId|
                    old(self).declaring@.contains(x) ==> !start_list.contains(x) && rank(x) > rank(declaration)),
                outside ==> ranked_outside(environment, trees@, rank, white_list@),
                premise ==> outside,
                premise == checkable_outside(environment, trees@, rank, start_list, declaring_before, declaration, fuel as nat),
                declaring_before == old(self).declaring@,
            decreases structure.fields@.len() - i,
        {
            proof {
                assert(structure.fields@[i as int] == trees@[declaration.tree as int].structs@[declaration.index as int].fields@[i as int]);
            }
            let field_type = &structure.fields[i].field_type;
            let ghost list_before = white_list@;
            match resolve_type_name(environment, &field_type.name, field_type.is_collection)? {
                Some(Types::Struct(s)) => {
                    proof {
                        assert(self.declaring@[self.declaring@.len() - 1] == declaration);
                        assert(!white_list@.contains(declaration));
                        if outside {
                            assert(field_of_struct(environment, structure.fields@[i as int], s));
                            assert(field_struct(environment, trees@, declaration, s));
                            assert(struct_exists(trees@, s));
                            assert(white_list@.contains(s) || rank(s) < rank(declaration));
                            assert forall|x: DeclId| self.declaring@.contains(x) implies !white_list@.contains(x) && (white_list@.contains(s)
                                || rank(x) > rank(s)) by {
                                if x != declaration {
                                    let j = choose|j: int| 0 <= j < self.declaring@.len() && self.declaring@[j] == x;
                                    assert(j < old(self).declaring@.len());
                                    assert(old(self).declaring@[j] == x);
                                    assert(old(self).declaring@.contains(x));
                                    assert(!start_list.contains(x));
                                    assert(rank(x) > rank(declaration));
                                }
                            }
                        }
                        if ranked {
                            assert(field_of_struct(environment, structure.fields@[i as int], s));
                            assert(field_struct(environment, trees@, declaration, s));
                            assert(rank(s) < rank(declaration));
                            assert forall|x: DeclId| self.declaring@.contains(x) implies rank(x) > rank(s) by {
                                if x != declaration {
                                    let j = choose|j: int| 0 <= j < self.declaring@.len() && self.declaring@[j] == x;
                                    assert(j < old(self).declaring@.len());
                                    assert(old(self).declaring@[j] == x);
                                    assert(old(self).declaring@.contains(x));
                                }
                            }
                        }
                    }
                    if fuel == 0 {
                        return Err(EnvError::NestingTooDeep);
                    }
                    proof {
                        if s == declaration {
                            assert(self.declaring@[self.declaring@.len() - 1] == declaration);
                            assert(self.declaring@.contains(declaration));
                        }
                    }
                    proof {
                        if outside {
                        }
                    }
                    let checked = self.recursively_check(s, white_list, fuel - 1, Ghost(rank));
                    proof {
                        if outside {
                            assert(checked is Ok);
                        }
                    }
                    checked?;
                    proof {
                        assert(s != declaration);
                        assert forall|x: DeclId| self.declaring@.contains(x) && white_list@.contains(x) implies start_list.contains(x) by {
                            assert(list_before.contains(x));
                        }
                        if outside {
                            lemma_ranked_outside_grows(environment, trees@, rank, list_before, white_list@);
                        }
                        assert forall|d: DeclId| white_list@.contains(d) && !start_list.contains(d) implies !#[trigger] field_struct(
                            environment,
                            trees@,
                            d,
                            d,
                        ) by {
                            if !list_before.contains(d) {
                            }
                        }
                        assert(white_list@.take(start_list.len() as int) =~= white_list@.take(list_before.len() as int).take(
                            start_list.len() as int,
                        ));
                        assert forall|k: int, b: DeclId|
                            0 <= k < i + 1 && #[trigger] field_of_struct(environment, structure.fields@[k], b)
                            implies white_list@.contains(b) by {
                            if k < i {
                                assert(list_before.contains(b));
                            }
                        }
                    }
                },
                Some(_) => {},
                None => {
                    return Err(EnvError::UnresolvableType(join_path(field_type.name.moniker.as_slice())));
                },
            }
            i = i + 1;
        }
        proof {
            assert forall|x: DeclId| old(self).declaring@.contains(x) && white_list@.contains(x) implies start_list.contains(x) by {
                let j = choose|j: int| 0 <= j < old(self).declaring@.len() && old(self).declaring@[j] == x;
                assert(self.declaring@[j] == x);
            }
        }
        let ghost kept_out = white_list@;
        let mut k: usize = 0;
        let mut removed = false;
        while k < self.declaring.len() && !removed
            invariant
                k <= self.declaring@.len(),
                self.environment == environment,
                self.syntax_trees == trees,
                forall|d: DeclId| start_list.contains(d) ==> white_list@.contains(d),
                flat ==> white_list@ == start_list,
                !old(self).declaring@.contains(declaration),
                removed ==> self.declaring@ == old(self).declaring@,
                !removed ==> self.declaring@ == old(self).declaring@.push(declaration)
                    && forall|j: int| 0 <= j < k ==> self.declaring@[j] != declaration,
            decreases self.declaring@.len() - k, if removed { 0nat } else { 1nat },
        {
            if self.declaring[k] == declaration {
                proof {
                    if k < old(self).declaring@.len() {
                        assert(old(self).declaring@[k as int] == declaration);
                        assert(old(self).declaring@.contains(declaration));
                    }
                }
                self.declaring.remove(k);
                proof {
                    assert(self.declaring@ =~= old(self).declaring@);
                }
                removed = true;
            } else {
                k = k + 1;
            }
        }
        proof {
            if !removed {
                assert(self.declaring@[self.declaring@.len() - 1] == declaration);
            }
        }
        let ghost before = white_list@;
        white_list.push(declaration);
        proof {
            assert(white_list@[white_list@.len() - 1] == declaration);
            assert(!field_struct(environment, trees@, declaration, declaration)) by {
                if field_struct(environment, trees@, declaration, declaration) {
                    let f = choose|f: int|
                        0 <= f < trees@[declaration.tree as int].structs@[declaration.index as int].fields@.len() && #[trigger] field_of_struct(
                            environment,
                            trees@[declaration.tree as int].structs@[declaration.index as int].fields@[f],
                            declaration,
                        );
                    assert(structure.fields@[f] == trees@[declaration.tree as int].structs@[declaration.index as int].fields@[f]);
                }
            }
            assert forall|d: DeclId| white_list@.contains(d) && !old(white_list)@.contains(d) implies !#[trigger] field_struct(
                environment,
                trees@,
                d,
                d,
            ) by {
                if d != declaration {
                    let j = choose|j: int| 0 <= j < white_list@.len() && white_list@[j] == d;
                    assert(before[j] == d);
                    assert(before.contains(d));
                }
            }
            assert forall|d: DeclId| start_list.contains(d) implies white_list@.contains(d) by {
                let j = choose|j: int| 0 <= j < before.len() && before[j] == d;
                assert(white_list@[j] == d);
            }
            assert(white_list@.take(start_list.len() as int) =~= before.take(start_list.len() as int));
            assert forall|x: DeclId| old(self).declaring@.contains(x) && white_list@.contains(x) implies start_list.contains(x) by {
                if x != declaration {
                    let j = choose|j: int| 0 <= j < white_list@.len() && white_list@[j] == x;
                    assert(before[j] == x);
                    assert(kept_out.contains(x));
                }
            }
            if fields_first(environment, trees@, start_list) {
                assert forall|j: int, b: DeclId|
                    0 <= j < white_list@.len() && #[trigger] field_struct(environment, trees@, white_list@[j], b)
                    implies white_list@.take(j).contains(b) by {
                    if j < before.len() {
                        assert(white_list@.take(j) =~= before.take(j));
                        assert(before[j] == white_list@[j]);
                    } else {
                        assert(white_list@.take(j) =~= before);
                        let f = choose|f: int|
                            0 <= f < structure.fields@.len() && #[trigger] field_of_struct(environment, structure.fields@[f], b);
                        assert(before.contains(b));
                    }
                }
            }
        }
        Ok(())
    }
}

} // verus!
