//! Creates the scopes of blocks, struct bodies and struct initializations, and records in
//! the syntax trees the scope that each name is used in.
use crate::ast::{
    AbstractSyntaxTree, Accessor, Block, CompilationUnit, ConstantDeclaration, Declaration,
    Expression, Field, Name, Parameter, ScopeId, Statement, StructDeclaration, StructInitContent,
};
use crate::env::construction::subdivide_struct_init::subdivide;
use crate::env::environment::{lemma_module_at_extended, module_at, modules_extended, Environment};
use crate::ast::GLOBAL_SCOPE;
use crate::env::error::EnvError;
use crate::env::scope::Scoped;
use crate::names::{path_view, Ident};
use vstd::prelude::*;

verus! {

/// How deep expressions may nest before the environment refuses them.
pub const MAX_NESTING: usize = 1024;

/// The scopes only grow: the scopes there were stay as they were.
pub open spec fn scopes_grown(env1: &Environment, env2: &Environment) -> bool {
    &&& env2.wf()
    &&& modules_extended(env1.scopes@, env2.scopes@)
    &&& env1.scopes@.len() <= env2.scopes@.len()
    &&& forall|j: int| 0 <= j < env1.scopes@.len() ==> #[trigger] env2.scopes@[j] == env1.scopes@[j]
}

/// The scopes that the walk marks on an expression used in scope `s`: names and `self`
/// carry `s`; a block with statements, and the content of a struct initialization, carry a
/// scope of their own whose parent is `s`, and what they hold is marked from that scope.
pub open spec fn expression_marked(e: Expression, scopes: Seq<crate::env::scope::Scope>, s: ScopeId) -> bool
    decreases e,
{
    match e {
        Expression::ConstUse(name) => name.scope == s,
        Expression::SelfRef(x) => x == s,
        Expression::StructInit { name, parameters, init_content } => {
            &&& name.scope == s
            &&& forall|i: int|
                0 <= i < parameters.len() ==> parameter_marked(#[trigger] parameters@[i], scopes, s)
            &&& match init_content {
                Some(c) => {
                    &&& c.scope < scopes.len()
                    &&& scopes[c.scope as int].parent == s
                    &&& forall|i: int|
                        0 <= i < c.expressions.len() ==> expression_marked(#[trigger] c.expressions@[i], scopes, c.scope)
                },
                None => true,
            }
        },
        Expression::ChainingMethodInvocation { receiver, accessors } => {
            &&& expression_marked(*receiver, scopes, s)
            &&& forall|i: int|
                0 <= i < accessors.len() ==> match #[trigger] accessors@[i].value {
                    Some(v) => expression_marked(v, scopes, s),
                    None => true,
                }
        },
        Expression::FieldAccess { receiver, .. } => expression_marked(*receiver, scopes, s),
        Expression::Block(b) => b.statements.len() == 0 || {
            &&& b.scope < scopes.len()
            &&& scopes[b.scope as int].parent == s
            &&& forall|i: int|
                0 <= i < b.statements.len() ==> match #[trigger] b.statements@[i] {
                    Statement::Expression(x) => expression_marked(x, scopes, b.scope),
                    _ => true,
                }
        },
        Expression::Collection(elements) => forall|i: int|
            0 <= i < elements.len() ==> expression_marked(#[trigger] elements@[i], scopes, s),
        _ => true,
    }
}

/// The scopes marked on the expression of a parameter used in scope `s`.
pub open spec fn parameter_marked(p: Parameter, scopes: Seq<crate::env::scope::Scope>, s: ScopeId) -> bool
    decreases p,
{
    match p {
        Parameter::Plain(v) => expression_marked(v, scopes, s),
        Parameter::Labelled { content, .. } => expression_marked(content, scopes, s),
    }
}

/// The scopes that the walk marks on a struct declared in scope `s`: where it has fields or
/// attributes, a scope of its own under `s`, from which the types of its fields are named and
/// which its body, if any, records; the default values of its fields are marked from `s`.
pub open spec fn struct_marked(d: StructDeclaration, scopes: Seq<crate::env::scope::Scope>, s: ScopeId) -> bool {
    (d.fields@.len() > 0 || (d.body matches Some(b) && b.attributes@.len() > 0)) ==> exists|inner: ScopeId|
        inner < scopes.len() && scopes[inner as int].parent == s && (forall|i: int|
            0 <= i < d.fields@.len() ==> (#[trigger] d.fields@[i]).field_type.name.scope == inner && (
            d.fields@[i].default_value matches Some(v) ==> expression_marked(v, scopes, s))) && (d.body matches Some(b)
            ==> b.scope == inner)
}

/// The types that a trait declared in scope `s` requires are named from `s`.
pub open spec fn trait_marked(d: crate::ast::TraitDeclaration, s: ScopeId) -> bool {
    forall|i: int| 0 <= i < d.required@.len() ==> (#[trigger] d.required@[i]).field_type.name.scope == s
}

/// The marks of a declaration at the top of a tree whose module has scope `s`: those of its
/// struct or trait.
pub open spec fn declaration_marked(tree: AbstractSyntaxTree, scopes: Seq<crate::env::scope::Scope>, s: ScopeId, d: Declaration) -> bool {
    match d {
        Declaration::Struct(k) => k < tree.structs@.len() && struct_marked(tree.structs@[k as int], scopes, s),
        Declaration::Trait(k) => k < tree.traits@.len() ==> trait_marked(tree.traits@[k as int], s),
        _ => true,
    }
}

/// Every struct and trait declared at the top of the tree is marked from scope `s`.
pub open spec fn tree_marked(tree: AbstractSyntaxTree, scopes: Seq<crate::env::scope::Scope>, s: ScopeId) -> bool {
    forall|j: int|
        0 <= j < tree.compilation_unit.declarations@.len() ==> declaration_marked(
            tree,
            scopes,
            s,
            #[trigger] tree.compilation_unit.declarations@[j],
        )
}

/// Marks on a struct stay true when scopes are added or change but their parents.
pub proof fn lemma_struct_marked_grows(
    d: StructDeclaration,
    a: Seq<crate::env::scope::Scope>,
    b: Seq<crate::env::scope::Scope>,
    s: ScopeId,
)
    requires
        parents_extended(a, b),
        struct_marked(d, a, s),
    ensures
        struct_marked(d, b, s),
{
    if d.fields@.len() > 0 || (d.body matches Some(body) && body.attributes@.len() > 0) {
        let inner = choose|inner: ScopeId|
            inner < a.len() && a[inner as int].parent == s && (forall|i: int|
                0 <= i < d.fields@.len() ==> (#[trigger] d.fields@[i]).field_type.name.scope == inner && (
                d.fields@[i].default_value matches Some(v) ==> expression_marked(v, a, s))) && (d.body matches Some(body)
                ==> body.scope == inner);
        assert forall|i: int| 0 <= i < d.fields@.len() implies (#[trigger] d.fields@[i]).field_type.name.scope == inner && (
            d.fields@[i].default_value matches Some(v) ==> expression_marked(v, b, s)) by {
            match d.fields@[i].default_value {
                Some(v) => lemma_marked_grows(v, a, b, s),
                None => {},
            }
        }
        assert(b[inner as int].parent == a[inner as int].parent);
    }
}

/// The tree is marked from the scope of the module that the path names.
pub open spec fn marked_in_module(tree: AbstractSyntaxTree, scopes: Seq<crate::env::scope::Scope>, path: Seq<Seq<u8>>) -> bool {
    match module_at(scopes, GLOBAL_SCOPE, path) {
        Some(m) => tree_marked(tree, scopes, m),
        None => false,
    }
}

/// Marks on a tree stay true when scopes are added or change but their parents.
pub proof fn lemma_tree_marked_grows(
    tree: AbstractSyntaxTree,
    a: Seq<crate::env::scope::Scope>,
    b: Seq<crate::env::scope::Scope>,
    s: ScopeId,
)
    requires
        parents_extended(a, b),
        tree_marked(tree, a, s),
    ensures
        tree_marked(tree, b, s),
{
    assert forall|j: int| 0 <= j < tree.compilation_unit.declarations@.len() implies declaration_marked(
        tree,
        b,
        s,
        #[trigger] tree.compilation_unit.declarations@[j],
    ) by {
        let d = tree.compilation_unit.declarations@[j];
        assert(declaration_marked(tree, a, s, d));
        match d {
            Declaration::Struct(k) => lemma_struct_marked_grows(tree.structs@[k as int], a, b, s),
            _ => {},
        }
    }
}

/// `b` holds every scope of `a`, with the same parent.
pub open spec fn parents_extended(a: Seq<crate::env::scope::Scope>, b: Seq<crate::env::scope::Scope>) -> bool {
    &&& a.len() <= b.len()
    &&& forall|j: int| 0 <= j < a.len() ==> #[trigger] b[j].parent == a[j].parent
}

/// `b` starts with the scopes of `a`.
pub open spec fn scopes_prefix(a: Seq<crate::env::scope::Scope>, b: Seq<crate::env::scope::Scope>) -> bool {
    &&& a.len() <= b.len()
    &&& forall|j: int| 0 <= j < a.len() ==> #[trigger] b[j] == a[j]
}

/// Marks on a parameter stay true when scopes are added or change but their parents.
pub proof fn lemma_parameter_marked_grows(p: Parameter, a: Seq<crate::env::scope::Scope>, b: Seq<crate::env::scope::Scope>, s: ScopeId)
    requires
        parents_extended(a, b),
        parameter_marked(p, a, s),
    ensures
        parameter_marked(p, b, s),
{
    match p {
        Parameter::Plain(v) => lemma_marked_grows(v, a, b, s),
        Parameter::Labelled { content, .. } => lemma_marked_grows(content, a, b, s),
    }
}

/// Marks stay true when scopes are added or change but their parents.
pub proof fn lemma_marked_grows(e: Expression, a: Seq<crate::env::scope::Scope>, b: Seq<crate::env::scope::Scope>, s: ScopeId)
    requires
        parents_extended(a, b),
        expression_marked(e, a, s),
    ensures
        expression_marked(e, b, s),
    decreases e,
{
    match e {
        Expression::StructInit { name, parameters, init_content } => {
            assert forall|i: int| 0 <= i < parameters.len() implies parameter_marked(#[trigger] parameters@[i], b, s) by {
                assert(parameter_marked(parameters@[i], a, s));
                match parameters@[i] {
                    Parameter::Plain(v) => lemma_marked_grows(v, a, b, s),
                    Parameter::Labelled { content, .. } => lemma_marked_grows(content, a, b, s),
                }
            }
            match init_content {
                Some(c) => {
                    assert forall|i: int| 0 <= i < c.expressions.len() implies expression_marked(
                        #[trigger] c.expressions@[i],
                        b,
                        c.scope,
                    ) by {
                        lemma_marked_grows(c.expressions@[i], a, b, c.scope);
                    }
                },
                None => {},
            }
        },
        Expression::ChainingMethodInvocation { receiver, accessors } => {
            lemma_marked_grows(*receiver, a, b, s);
            assert forall|i: int| 0 <= i < accessors.len() implies match #[trigger] accessors@[i].value {
                Some(v) => expression_marked(v, b, s),
                None => true,
            } by {
                match accessors@[i].value {
                    Some(v) => lemma_marked_grows(v, a, b, s),
                    None => {},
                }
            }
        },
        Expression::FieldAccess { receiver, .. } => lemma_marked_grows(*receiver, a, b, s),
        Expression::Block(blk) => {
            if blk.statements.len() > 0 {
                assert forall|i: int| 0 <= i < blk.statements.len() implies match #[trigger] blk.statements@[i] {
                    Statement::Expression(x) => expression_marked(x, b, blk.scope),
                    _ => true,
                } by {
                    match blk.statements@[i] {
                        Statement::Expression(x) => lemma_marked_grows(x, a, b, blk.scope),
                        _ => {},
                    }
                }
            }
        },
        Expression::Collection(elements) => {
            assert forall|i: int| 0 <= i < elements.len() implies expression_marked(#[trigger] elements@[i], b, s) by {
                lemma_marked_grows(elements@[i], a, b, s);
            }
        },
        _ => {},
    }
}

/// Whether every declaration of the tree is a `use` or a trait, which need no new scope.
pub open spec fn needs_no_scope(tree: AbstractSyntaxTree) -> bool {
    forall|j: int|
        0 <= j < tree.compilation_unit.declarations@.len() ==> (#[trigger] tree.compilation_unit.declarations@[j]) is Import
            || tree.compilation_unit.declarations@[j] is Trait
}

/// Whether each tree that has a module path needs no new scope, and each such path names a
/// module of the environment.
pub open spec fn generates_nothing(env: &Environment, trees: Seq<AbstractSyntaxTree>, paths: Seq<Vec<Ident>>) -> bool {
    forall|t: int|
        0 <= t < trees.len() && t < paths.len() ==> needs_no_scope(#[trigger] trees[t])
            && module_at(env.scopes@, GLOBAL_SCOPE, path_view(paths[t]@)) is Some
}

/// Whether walking the expression meets no error: it is at most `fuel` levels deep, one
/// more for a struct initialization, which may become a method on a constant, and its
/// blocks hold expressions only, so that no constant is walked.
pub open spec fn generates_freely(e: Expression, fuel: nat) -> bool
    decreases e,
{
    &&& fuel > 0
    &&& match e {
        Expression::StructInit { parameters, init_content, .. } => {
            &&& fuel > 1
            &&& forall|i: int|
                0 <= i < parameters@.len() ==> match #[trigger] parameters@[i] {
                    Parameter::Plain(v) => generates_freely(v, (fuel - 1) as nat),
                    Parameter::Labelled { content, .. } => generates_freely(content, (fuel - 1) as nat),
                }
            &&& match init_content {
                Some(c) => forall|i: int| 0 <= i < c.expressions@.len() ==> generates_freely(#[trigger] c.expressions@[i], (fuel - 1) as nat),
                None => true,
            }
        },
        Expression::ChainingMethodInvocation { receiver, accessors } => {
            &&& generates_freely(*receiver, (fuel - 1) as nat)
            &&& forall|i: int|
                0 <= i < accessors@.len() ==> match #[trigger] accessors@[i].value {
                    Some(v) => generates_freely(v, (fuel - 1) as nat),
                    None => true,
                }
        },
        Expression::FieldAccess { receiver, .. } => generates_freely(*receiver, (fuel - 1) as nat),
        Expression::Collection(elements) => forall|i: int|
            0 <= i < elements@.len() ==> generates_freely(#[trigger] elements@[i], (fuel - 1) as nat),
        Expression::Block(b) => forall|i: int|
            0 <= i < b.statements@.len() ==> match #[trigger] b.statements@[i] {
                Statement::Expression(x) => generates_freely(x, (fuel - 1) as nat),
                Statement::ConstantDeclaration(_) => false,
            },
        _ => true,
    }
}

/// The expression of a parameter.
pub open spec fn parameter_value(p: Parameter) -> Expression {
    match p {
        Parameter::Plain(v) => v,
        Parameter::Labelled { content, .. } => content,
    }
}

/// Whether walking a declaration at the top of the tree meets no error: an import, a
/// trait, a constant of the tree whose value generates freely, or a struct of the tree
/// with no default value and no attribute.
pub open spec fn declaration_generates_freely(tree: AbstractSyntaxTree, d: Declaration) -> bool {
    match d {
        Declaration::Constant(c) => c < tree.constants@.len() && generates_freely(tree.constants@[c as int].value, MAX_NESTING as nat),
        Declaration::Struct(k) => k < tree.structs@.len() && walks_no_value(tree.structs@[k as int]),
        _ => true,
    }
}

/// Whether walking the declarations of the tree meets no error: each generates freely and
/// no constant or struct is declared twice.
pub open spec fn tree_generates_freely(tree: AbstractSyntaxTree) -> bool {
    let ds = tree.compilation_unit.declarations@;
    &&& forall|i: int| 0 <= i < ds.len() ==> declaration_generates_freely(tree, #[trigger] ds[i])
    &&& forall|i1: int, i2: int|
        0 <= i1 < i2 < ds.len() && ((#[trigger] ds[i1] is Constant && ds[i2] is Constant) || (ds[i1] is Struct && ds[i2] is Struct))
            ==> ds[i1] != #[trigger] ds[i2]
}

/// Whether each tree that has a module path generates freely and its module exists.
pub open spec fn trees_generate_freely(env: &Environment, trees: Seq<AbstractSyntaxTree>, paths: Seq<Vec<Ident>>) -> bool {
    forall|t: int|
        0 <= t < trees.len() && t < paths.len() ==> tree_generates_freely(#[trigger] trees[t])
            && module_at(env.scopes@, GLOBAL_SCOPE, path_view(paths[t]@)) is Some
}

/// Whether no field of the struct has a default value and its body, if any, holds no
/// attribute: nothing in it is walked that could fail.
pub open spec fn walks_no_value(d: StructDeclaration) -> bool {
    &&& forall|j: int| 0 <= j < d.fields@.len() ==> (#[trigger] d.fields@[j]).default_value is None
    &&& d.body matches Some(b) ==> b.attributes@.len() == 0
}

/// Creates scopes and marks them on the syntax trees.
pub struct ScopeGenerator;

/// Where the tree's only declaration is a constant whose value is a block with
/// statements, that block gets the scope `next`, the first scope the tree creates.
pub open spec fn opening_block_marked(before: AbstractSyntaxTree, after: AbstractSyntaxTree, next: nat) -> bool {
    let ds = before.compilation_unit.declarations@;
    let c = ds[0]->Constant_0;
    ds.len() == 1 && ds[0] is Constant && c < before.constants@.len() && opens_block(before.constants@[c as int].value)
        ==> block_scope(after.constants@[c as int].value) == Some(next as ScopeId)
}

/// Whether the expression is a block with statements.
pub open spec fn opens_block(e: Expression) -> bool {
    e is Block && e->Block_0.statements@.len() > 0
}

/// The scope of a block; nothing for another expression.
pub open spec fn block_scope(e: Expression) -> Option<ScopeId> {
    match e {
        Expression::Block(b) => Some(b.scope),
        _ => None,
    }
}

impl ScopeGenerator {
    /// Walks every tree from the scope of its module: the tree at index `i` belongs to the
    /// module `module_paths[i]`.
    pub fn generate(
        env: &mut Environment,
        syntax_trees: &mut Vec<AbstractSyntaxTree>,
        module_paths: &[Vec<Ident>],
    ) -> (res: Result<(), EnvError>)
        requires
            old(env).wf(),
        ensures
            scopes_grown(old(env), final(env)),
            final(syntax_trees)@.len() == old(syntax_trees)@.len(),
            forall|t: int|
                0 <= t < old(syntax_trees)@.len() ==> (#[trigger] final(syntax_trees)@[t]).compilation_unit == old(
                    syntax_trees,
                )@[t].compilation_unit,
            res is Ok ==> forall|t: int|
                0 <= t < old(syntax_trees)@.len() && t < module_paths@.len() ==> marked_in_module(
                    #[trigger] final(syntax_trees)@[t],
                    final(env).scopes@,
                    path_view(module_paths@[t]@),
                ),
            generates_nothing(old(env), old(syntax_trees)@, module_paths@) ==> res is Ok && *final(env) == *old(env),
            trees_generate_freely(old(env), old(syntax_trees)@, module_paths@) ==> res is Ok,
            0 < old(syntax_trees)@.len() && 0 < module_paths@.len()
                && module_at(old(env).scopes@, GLOBAL_SCOPE, path_view(module_paths@[0]@)) is None
                ==> (res matches Err(EnvError::ModuleNotFound(_))),
            res is Ok && old(syntax_trees)@.len() == 1 && module_paths@.len() >= 1 ==> opening_block_marked(
                old(syntax_trees)@[0],
                final(syntax_trees)@[0],
                old(env).scopes@.len(),
            ),
    {
        let mut i: usize = 0;
        while i < syntax_trees.len() && i < module_paths.len()
            invariant
                scopes_grown(old(env), env),
                syntax_trees@.len() == old(syntax_trees)@.len(),
                forall|t: int|
                    0 <= t < old(syntax_trees)@.len() ==> (#[trigger] syntax_trees@[t]).compilation_unit == old(
                        syntax_trees,
                    )@[t].compilation_unit,
                i <= syntax_trees@.len(),
                forall|t: int|
                    0 <= t < i && t < module_paths@.len() ==> marked_in_module(
                        #[trigger] syntax_trees@[t],
                        env.scopes@,
                        path_view(module_paths@[t]@),
                    ),
                generates_nothing(old(env), old(syntax_trees)@, module_paths@) ==> *env == *old(env),
                i == 0 ==> *env == *old(env),
                i > 0 ==> module_at(old(env).scopes@, GLOBAL_SCOPE, path_view(module_paths@[0]@)) is Some,
                forall|t: int| i <= t < syntax_trees@.len() ==> #[trigger] syntax_trees@[t] == old(syntax_trees)@[t],
                i > 0 && syntax_trees@.len() == 1 ==> opening_block_marked(old(syntax_trees)@[0], syntax_trees@[0], old(env).scopes@.len()),
            decreases syntax_trees@.len() - i,
        {
            proof {
                if trees_generate_freely(old(env), old(syntax_trees)@, module_paths@) {
                    assert(tree_generates_freely(old(syntax_trees)@[i as int]));
                    lemma_module_at_extended(old(env).scopes@, env.scopes@, GLOBAL_SCOPE, path_view(module_paths@[i as int]@));
                    assert(syntax_trees@[i as int] == old(syntax_trees)@[i as int]);
                }
            }
            let ghost trees_before = syntax_trees@;
            let ghost scopes_before = env.scopes@;
            proof {
                if generates_nothing(old(env), old(syntax_trees)@, module_paths@) {
                    assert(needs_no_scope(old(syntax_trees)@[i as int]));
                    assert(module_at(env.scopes@, GLOBAL_SCOPE, path_view(module_paths@[i as int]@)) is Some);
                    assert(syntax_trees@[i as int].compilation_unit == old(syntax_trees)@[i as int].compilation_unit);
                }
            }
            let path = module_paths[i].as_slice();
            assert(path@ == module_paths@[i as int]@);
            let module_scope = match env.find_module(path) {
                Some(s) => s,
                None => {
                    return Err(EnvError::ModuleNotFound(crate::names::join_path(module_paths[i].as_slice())));
                },
            };
            let mut tree = AbstractSyntaxTree {
                compilation_unit: CompilationUnit { declarations: Vec::new() },
                constants: Vec::new(),
                structs: Vec::new(),
                traits: Vec::new(),
            };
            std::mem::swap(&mut tree, &mut syntax_trees[i]);
            let ghost tree_in = tree;
            let ghost scopes_count = env.scopes@.len();
            let r = Self::generate_scopes(env, &mut tree, module_scope);
            let ghost tree_out = tree;
            std::mem::swap(&mut tree, &mut syntax_trees[i]);
            proof {
                if r is Ok && i == 0 && syntax_trees@.len() == 1 {
                    assert(tree_in == old(syntax_trees)@[0]);
                    assert(syntax_trees@[0] == tree_out);
                    assert(scopes_count == old(env).scopes@.len());
                }
            }
            match r {
                Ok(()) => {},
                Err(e) => {
                    return Err(e);
                },
            }
            proof {
                assert forall|t: int|
                    0 <= t < i + 1 && t < module_paths@.len() implies marked_in_module(
                        #[trigger] syntax_trees@[t],
                        env.scopes@,
                        path_view(module_paths@[t]@),
                    ) by {
                    if t < i {
                        assert(marked_in_module(trees_before[t], scopes_before, path_view(module_paths@[t]@)));
                        lemma_module_at_extended(scopes_before, env.scopes@, GLOBAL_SCOPE, path_view(module_paths@[t]@));
                        let m = module_at(scopes_before, GLOBAL_SCOPE, path_view(module_paths@[t]@))->0;
                        assert(syntax_trees@[t] == trees_before[t]);
                        lemma_tree_marked_grows(trees_before[t], scopes_before, env.scopes@, m);
                    } else {
                        assert(module_at(scopes_before, GLOBAL_SCOPE, path_view(module_paths@[t]@)) == Some(module_scope));
                        lemma_module_at_extended(scopes_before, env.scopes@, GLOBAL_SCOPE, path_view(module_paths@[t]@));
                    }
                }
            }
            i = i + 1;
        }
        Ok(())
    }

    /// Walks the declarations of one tree from the scope of its module.
    fn generate_scopes(env: &mut Environment, syntax_tree: &mut AbstractSyntaxTree, module_scope_id: ScopeId) -> (res: Result<(), EnvError>)
        requires
            old(env).wf(),
            module_scope_id < old(env).scopes@.len(),
        ensures
            scopes_grown(old(env), final(env)),
            final(syntax_tree).compilation_unit == old(syntax_tree).compilation_unit,
            res is Ok ==> tree_marked(*final(syntax_tree), final(env).scopes@, module_scope_id),
            needs_no_scope(*old(syntax_tree)) ==> res is Ok && *final(env) == *old(env),
            tree_generates_freely(*old(syntax_tree)) ==> res is Ok,
            res is Ok ==> opening_block_marked(*old(syntax_tree), *final(syntax_tree), old(env).scopes@.len()),
    {
        let mut i: usize = 0;
        while i < syntax_tree.compilation_unit.declarations.len()
            invariant
                scopes_grown(old(env), env),
                module_scope_id < env.scopes@.len(),
                syntax_tree.compilation_unit == old(syntax_tree).compilation_unit,
                i <= syntax_tree.compilation_unit.declarations@.len(),
                needs_no_scope(*old(syntax_tree)) ==> *env == *old(env),
                tree_generates_freely(*old(syntax_tree)) ==> forall|i2: int|
                    i <= i2 < syntax_tree.compilation_unit.declarations@.len() ==> declaration_generates_freely(
                        *syntax_tree,
                        #[trigger] syntax_tree.compilation_unit.declarations@[i2],
                    ),
                forall|j: int|
                    0 <= j < i ==> declaration_marked(
                        *syntax_tree,
                        env.scopes@,
                        module_scope_id,
                        #[trigger] syntax_tree.compilation_unit.declarations@[j],
                    ),
                i == 0 ==> *env == *old(env) && *syntax_tree == *old(syntax_tree),
                i > 0 ==> opening_block_marked(*old(syntax_tree), *syntax_tree, old(env).scopes@.len()),
            decreases syntax_tree.compilation_unit.declarations@.len() - i,
        {
            let ghost tree_before = *syntax_tree;
            let ghost scopes_before = env.scopes@;
            assert(needs_no_scope(*old(syntax_tree)) ==> (old(syntax_tree).compilation_unit.declarations@[i as int] is Import
                || old(syntax_tree).compilation_unit.declarations@[i as int] is Trait));
            assert(tree_generates_freely(*old(syntax_tree)) ==> declaration_generates_freely(
                *syntax_tree,
                syntax_tree.compilation_unit.declarations@[i as int],
            ));
            let declaration = match &syntax_tree.compilation_unit.declarations[i] {
                Declaration::Constant(c) => Some((0u8, *c)),
                Declaration::Struct(s) => Some((1u8, *s)),
                Declaration::Trait(t) => Some((2u8, *t)),
                Declaration::Import(_) => None,
            };
            match declaration {
                Some((kind, index)) => {
                    if kind == 0 {
                        Self::generate_for_constant(env, &mut syntax_tree.constants, index, module_scope_id, MAX_NESTING)?;
                    } else if kind == 1 {
                        Self::generate_for_struct_declaration(env, syntax_tree, index, module_scope_id)?;
                    } else {
                        Self::generate_for_trait_declaration(syntax_tree, index, module_scope_id);
                    }
                },
                None => {},
            }
            proof {
                if tree_generates_freely(*old(syntax_tree)) {
                    let ds = syntax_tree.compilation_unit.declarations@;
                    assert forall|i2: int| i + 1 <= i2 < ds.len() implies declaration_generates_freely(
                        *syntax_tree,
                        #[trigger] ds[i2],
                    ) by {
                        assert(declaration_generates_freely(tree_before, ds[i2]));
                        assert(ds[i as int] != ds[i2] || !((ds[i as int] is Constant && ds[i2] is Constant) || (ds[i as int] is Struct
                            && ds[i2] is Struct)));
                        match ds[i2] {
                            Declaration::Constant(c2) => {
                                assert(syntax_tree.constants@[c2 as int] == tree_before.constants@[c2 as int]);
                            },
                            Declaration::Struct(k2) => {
                                assert(syntax_tree.structs@[k2 as int] == tree_before.structs@[k2 as int]);
                            },
                            _ => {},
                        }
                    }
                }
                assert forall|j: int| 0 <= j < i + 1 implies declaration_marked(
                    *syntax_tree,
                    env.scopes@,
                    module_scope_id,
                    #[trigger] syntax_tree.compilation_unit.declarations@[j],
                ) by {
                    let d = syntax_tree.compilation_unit.declarations@[j];
                    if j < i {
                        assert(declaration_marked(tree_before, scopes_before, module_scope_id, d));
                        match d {
                            Declaration::Struct(k) => {
                                if syntax_tree.structs@[k as int] == tree_before.structs@[k as int] {
                                    lemma_struct_marked_grows(tree_before.structs@[k as int], scopes_before, env.scopes@, module_scope_id);
                                }
                            },
                            _ => {},
                        }
                    }
                }
            }
            i = i + 1;
        }
        Ok(())
    }

    /// Walks the value of the constant at `index` of the arena, in the scope.
    fn generate_for_constant(
        env: &mut Environment,
        constants: &mut Vec<ConstantDeclaration>,
        index: usize,
        scope_id: ScopeId,
        fuel: usize,
    ) -> (res: Result<(), EnvError>)
        requires
            old(env).wf(),
            scope_id < old(env).scopes@.len(),
        ensures
            scopes_grown(old(env), final(env)),
            final(constants)@.len() == old(constants)@.len(),
            index >= old(constants)@.len() ==> res == Err::<(), EnvError>(EnvError::InvalidState) && *final(env) == *old(env),
            index < old(constants)@.len() && fuel == 0 ==> res == Err::<(), EnvError>(EnvError::NestingTooDeep),
            res is Ok ==> index < old(constants)@.len()
                && expression_marked(final(constants)@[index as int].value, final(env).scopes@, scope_id),
            index < old(constants)@.len() && fuel > 0 && (old(constants)@[index as int].value is Literal
                || old(constants)@[index as int].value is Void) ==> res is Ok && *final(env) == *old(env),
            index < old(constants)@.len() && fuel > 0 && opens_block(old(constants)@[index as int].value) && res is Ok
                ==> block_scope(final(constants)@[index as int].value) == Some(old(env).scopes@.len() as ScopeId),
            index < old(constants)@.len() && generates_freely(old(constants)@[index as int].value, fuel as nat) ==> {
                &&& res is Ok
                &&& final(constants)@[index as int].name == old(constants)@[index as int].name
                &&& forall|j: int| 0 <= j < old(constants)@.len() && j != index ==> #[trigger] final(constants)@[j] == old(
                    constants,
                )@[j]
            },
        decreases fuel, 3nat,
    {
        if index >= constants.len() {
            return Err(EnvError::InvalidState);
        }
        let mut value = Expression::Void;
        std::mem::swap(&mut value, &mut constants[index].value);
        let r = Self::generate_for_expression(env, constants, value, scope_id, fuel);
        match r {
            Ok(v) => {
                if index < constants.len() {
                    constants[index].value = v;
                }
                Ok(())
            },
            Err(e) => Err(e),
        }
    }

    /// Walks an expression in the scope and returns it with its scopes marked: names and
    /// `self` get the scope, and a block with statements or the content of a struct
    /// initialization gets a new scope under it.
    fn generate_for_expression(
        env: &mut Environment,
        constants: &mut Vec<ConstantDeclaration>,
        expression: Expression,
        scope_id: ScopeId,
        fuel: usize,
    ) -> (res: Result<Expression, EnvError>)
        requires
            old(env).wf(),
            scope_id < old(env).scopes@.len(),
        ensures
            scopes_grown(old(env), final(env)),
            final(constants)@.len() == old(constants)@.len(),
            res matches Ok(out) ==> expression_marked(out, final(env).scopes@, scope_id),
            fuel == 0 ==> res == Err::<Expression, EnvError>(EnvError::NestingTooDeep),
            fuel > 0 && (expression is Literal || expression is Void) ==> res == Ok::<Expression, EnvError>(expression)
                && *final(env) == *old(env) && *final(constants) == *old(constants),
            fuel > 0 && expression is SelfRef ==> res == Ok::<Expression, EnvError>(Expression::SelfRef(scope_id))
                && *final(env) == *old(env),
            fuel > 0 ==> (expression matches Expression::ConstUse(n) ==> (res matches Ok(Expression::ConstUse(m))
                && m.moniker == n.moniker && m.scope == scope_id) && *final(env) == *old(env)),
            fuel > 0 && (expression matches Expression::Block(b) && b.statements@.len() == 0)
                ==> res == Ok::<Expression, EnvError>(expression) && *final(env) == *old(env),
            generates_freely(expression, fuel as nat) ==> res is Ok && *final(constants) == *old(constants),
            fuel > 0 ==> (expression matches Expression::Block(b0) ==> (b0.statements@.len() > 0 ==> (res matches Ok(out) ==> (
            out matches Expression::Block(b) && b.scope == old(env).scopes@.len() && b.statements@.len()
                == b0.statements@.len())))),
            expression matches Expression::Collection(es) ==> (res matches Ok(out) ==> out matches Expression::Collection(os)
                && os@.len() == es@.len()),
            expression matches Expression::StructInit { parameters: p0, init_content: c0, .. } ==> (res matches Ok(
                Expression::StructInit { parameters: p, init_content: c, .. },
            ) ==> p@.len() == p0@.len() && (c is Some <==> c0 is Some) && (c0 matches Some(x) ==> c->0.expressions@.len()
                == x.expressions@.len())),
            expression matches Expression::ChainingMethodInvocation { accessors: a0, .. } ==> (res matches Ok(out)
                ==> out matches Expression::ChainingMethodInvocation { accessors: a, .. } && a@.len() == a0@.len() && forall|k: int|
                0 <= k < a@.len() ==> (#[trigger] a@[k]).identifier == a0@[k].identifier && (a@[k].value is None <==> a0@[k].value is None)),
        decreases fuel, 1nat,
    {
        if fuel == 0 {
            return Err(EnvError::NestingTooDeep);
        }
        let f = fuel - 1;
        let ghost original = expression;
        let subdivided = subdivide(env, expression);
        let ghost free = generates_freely(subdivided, fuel as nat);
        proof {
            if generates_freely(original, fuel as nat) {
                if subdivided != original {
                    assert(original matches Expression::StructInit { parameters: ps, .. } && {
                        &&& forall|i: int|
                            0 <= i < ps@.len() ==> match #[trigger] ps@[i] {
                                Parameter::Plain(v) => generates_freely(v, f as nat),
                                Parameter::Labelled { content, .. } => generates_freely(content, f as nat),
                            }
                        &&& f > 0
                    });
                    let ps = original->parameters;
                    assert(subdivided matches Expression::ChainingMethodInvocation { receiver: r, accessors: acc } && {
                        &&& generates_freely(*r, f as nat)
                        &&& forall|i: int|
                            0 <= i < acc@.len() ==> match #[trigger] acc@[i].value {
                                Some(v) => generates_freely(v, f as nat),
                                None => true,
                            }
                    }) by {
                        if ps@.len() > 0 {
                            assert(generates_freely(parameter_value(ps@[ps@.len() - 1]), f as nat));
                        }
                    }
                }
                assert(free);
            }
        }
        match subdivided {
            Expression::ConstUse(name) => {
                let mut name = name;
                name.set_scope(scope_id);
                Ok(Expression::ConstUse(name))
            },
            Expression::SelfRef(_) => Ok(Expression::SelfRef(scope_id)),
            Expression::Literal { kind, lexeme } => Ok(Expression::Literal { kind, lexeme }),
            Expression::Void => Ok(Expression::Void),
            Expression::StructInit { name, parameters, init_content } => {
                let mut name = name;
                name.set_scope(scope_id);
                let mut parameters = parameters;
                proof {
                    if free {
                        assert(subdivided matches Expression::StructInit { parameters: x, .. } && x == parameters);
                    }
                    assert(expression matches Expression::StructInit { parameters: x, init_content: y, .. } ==> x == parameters
                        && y == init_content);
                }
                let ghost all_parameters = parameters@.len();
                let mut out_parameters: Vec<Parameter> = Vec::new();
                while parameters.len() > 0
                    invariant
                        out_parameters@.len() + parameters@.len() == all_parameters,
                        expression matches Expression::StructInit { parameters: x, init_content: y, .. } ==> x@.len() == all_parameters
                            && y == init_content,
                        free ==> forall|k: int| 0 <= k < parameters@.len() ==> generates_freely(parameter_value(#[trigger] parameters@[k]), f as nat),
                        free ==> (init_content matches Some(c) ==> forall|k: int|
                            0 <= k < c.expressions@.len() ==> generates_freely(#[trigger] c.expressions@[k], f as nat)),
                        scopes_grown(old(env), env),
                        scope_id < env.scopes@.len(),
                        constants@.len() == old(constants)@.len(),
                        f + 1 == fuel,
                        generates_freely(expression, fuel as nat) ==> free,
                        free ==> *constants == *old(constants),
                        !(expression is Literal || expression is Void || expression is SelfRef || expression is ConstUse),
                        !(expression matches Expression::Block(b) && b.statements@.len() == 0),
                        forall|k: int|
                            0 <= k < out_parameters@.len() ==> parameter_marked(#[trigger] out_parameters@[k], env.scopes@, scope_id),
                    decreases parameters@.len(),
                {
                    let ghost before_ps = parameters@;
                    let parameter = parameters.remove(0);
                    proof {
                        if free {
                            assert(generates_freely(parameter_value(before_ps[0]), f as nat));
                            assert forall|k: int| 0 <= k < parameters@.len() implies generates_freely(parameter_value(#[trigger] parameters@[k]), f as nat) by {
                                assert(parameters@[k] == before_ps[k + 1]);
                            }
                        }
                    }
                    let ghost before = *env;
                    let generated = Self::generate_for_parameter(env, constants, parameter, scope_id, f)?;
                    proof {
                        assert forall|k: int| 0 <= k < out_parameters@.len() implies parameter_marked(
                            #[trigger] out_parameters@[k],
                            env.scopes@,
                            scope_id,
                        ) by {
                            lemma_parameter_marked_grows(out_parameters@[k], before.scopes@, env.scopes@, scope_id);
                        }
                    }
                    out_parameters.push(generated);
                }
                let ghost after_parameters = *env;
                let init_content = match init_content {
                    Some(content) => {
                        let body_scope_id = env.add_child_scope(scope_id);
                        let ghost after_child = *env;
                        let ghost all_expressions = content.expressions@.len();
                        let mut expressions = content.expressions;
                        let mut out: Vec<Expression> = Vec::new();
                        while expressions.len() > 0
                            invariant
                                out@.len() + expressions@.len() == all_expressions,
                                free ==> forall|k: int| 0 <= k < expressions@.len() ==> generates_freely(#[trigger] expressions@[k], f as nat),
                                scopes_grown(old(env), env),
                                scopes_grown(&after_child, env),
                                body_scope_id < after_child.scopes@.len(),
                                after_child.scopes@[body_scope_id as int].parent == scope_id,
                                constants@.len() == old(constants)@.len(),
                                f + 1 == fuel,
                                generates_freely(expression, fuel as nat) ==> free,
                                free ==> *constants == *old(constants),
                                !(expression is Literal || expression is Void || expression is SelfRef || expression is ConstUse),
                                !(expression matches Expression::Block(b) && b.statements@.len() == 0),
                                forall|k: int|
                                    0 <= k < out@.len() ==> expression_marked(#[trigger] out@[k], env.scopes@, body_scope_id),
                            decreases expressions@.len(),
                        {
                            let ghost before_es = expressions@;
                            let e = expressions.remove(0);
                            proof {
                                if free {
                                    assert(generates_freely(before_es[0], f as nat));
                                    assert forall|k: int| 0 <= k < expressions@.len() implies generates_freely(#[trigger] expressions@[k], f as nat) by {
                                        assert(expressions@[k] == before_es[k + 1]);
                                    }
                                }
                            }
                            let ghost before = *env;
                            let generated = Self::generate_for_expression(env, constants, e, body_scope_id, f)?;
                            proof {
                                assert forall|k: int| 0 <= k < out@.len() implies expression_marked(
                                    #[trigger] out@[k],
                                    env.scopes@,
                                    body_scope_id,
                                ) by {
                                    lemma_marked_grows(out@[k], before.scopes@, env.scopes@, body_scope_id);
                                }
                            }
                            out.push(generated);
                        }
                        proof {
                            assert(env.scopes@[body_scope_id as int] == after_child.scopes@[body_scope_id as int]);
                        }
                        Some(StructInitContent { expressions: out, scope: body_scope_id })
                    },
                    None => None,
                };
                proof {
                    assert forall|k: int| 0 <= k < out_parameters@.len() implies parameter_marked(
                        #[trigger] out_parameters@[k],
                        env.scopes@,
                        scope_id,
                    ) by {
                        lemma_parameter_marked_grows(out_parameters@[k], after_parameters.scopes@, env.scopes@, scope_id);
                    }
                }
                Ok(Expression::StructInit { name, parameters: out_parameters, init_content })
            },
            Expression::ChainingMethodInvocation { receiver, accessors } => {
                proof {
                    if free {
                        assert(subdivided matches Expression::ChainingMethodInvocation { receiver: r, accessors: a } && r == receiver
                            && a == accessors);
                    }
                }
                proof {
                    assert(expression matches Expression::ChainingMethodInvocation { accessors: a, .. } ==> a == accessors);
                }
                let ghost all = accessors@;
                let receiver = Self::generate_for_expression(env, constants, *receiver, scope_id, f)?;
                let ghost after_receiver = *env;
                let mut accessors = accessors;
                let mut out: Vec<Accessor> = Vec::new();
                while accessors.len() > 0
                    invariant
                        free ==> forall|k: int| 0 <= k < accessors@.len() ==> match #[trigger] accessors@[k].value {
                            Some(v) => generates_freely(v, f as nat),
                            None => true,
                        },
                        scopes_grown(old(env), env),
                        scopes_grown(&after_receiver, env),
                        scope_id < env.scopes@.len(),
                        constants@.len() == old(constants)@.len(),
                        f + 1 == fuel,
                        generates_freely(expression, fuel as nat) ==> free,
                        free ==> *constants == *old(constants),
                        !(expression is Literal || expression is Void || expression is SelfRef || expression is ConstUse),
                        !(expression matches Expression::Block(b) && b.statements@.len() == 0),
                        forall|k: int|
                            0 <= k < out@.len() ==> match #[trigger] out@[k].value {
                                Some(v) => expression_marked(v, env.scopes@, scope_id),
                                None => true,
                            },
                        out@.len() + accessors@.len() == all.len(),
                        forall|k: int| 0 <= k < accessors@.len() ==> #[trigger] accessors@[k] == all[out@.len() + k],
                        forall|k: int|
                            0 <= k < out@.len() ==> (#[trigger] out@[k]).identifier == all[k].identifier && (out@[k].value is None
                                <==> all[k].value is None),
                        expression matches Expression::ChainingMethodInvocation { accessors: a, .. } ==> a@ == all,
                    decreases accessors@.len(),
                {
                    let ghost before_as = accessors@;
                    let accessor = accessors.remove(0);
                    proof {
                        if free {
                            assert(match before_as[0].value {
                                Some(v) => generates_freely(v, f as nat),
                                None => true,
                            });
                            assert forall|k: int| 0 <= k < accessors@.len() implies match #[trigger] accessors@[k].value {
                                Some(v) => generates_freely(v, f as nat),
                                None => true,
                            } by {
                                assert(accessors@[k] == before_as[k + 1]);
                            }
                        }
                    }
                    let ghost before = *env;
                    let value = match accessor.value {
                        Some(v) => Some(Self::generate_for_expression(env, constants, v, scope_id, f)?),
                        None => None,
                    };
                    proof {
                        assert forall|k: int| 0 <= k < out@.len() implies match #[trigger] out@[k].value {
                            Some(v) => expression_marked(v, env.scopes@, scope_id),
                            None => true,
                        } by {
                            match out@[k].value {
                                Some(v) => lemma_marked_grows(v, before.scopes@, env.scopes@, scope_id),
                                None => {},
                            }
                        }
                    }
                    proof {
                        assert(accessor == before_as[0]);
                        assert(before_as[0] == all[out@.len() as int]);
                        assert forall|k: int| 0 <= k < accessors@.len() implies #[trigger] accessors@[k] == all[out@.len() + 1 + k] by {
                            assert(accessors@[k] == before_as[k + 1]);
                        }
                    }
                    out.push(Accessor { identifier: accessor.identifier, value });
                }
                proof {
                    lemma_marked_grows(receiver, after_receiver.scopes@, env.scopes@, scope_id);
                }
                Ok(Expression::ChainingMethodInvocation { receiver: Box::new(receiver), accessors: out })
            },
            Expression::FieldAccess { receiver, field_names } => {
                proof {
                    if free {
                        assert(subdivided matches Expression::FieldAccess { receiver: r, .. } && r == receiver);
                    }
                }
                let receiver = Self::generate_for_expression(env, constants, *receiver, scope_id, f)?;
                Ok(Expression::FieldAccess { receiver: Box::new(receiver), field_names })
            },
            Expression::Block(block) => {
                if block.statements.len() == 0 {
                    return Ok(Expression::Block(block));
                }
                let body_scope_id = env.add_child_scope(scope_id);
                let ghost after_child = *env;
                let ghost n0 = block.statements@.len();
                proof {
                    if free {
                        assert(subdivided matches Expression::Block(x) && x == block);
                    }
                }
                let mut statements = block.statements;
                let mut out: Vec<Statement> = Vec::new();
                while statements.len() > 0
                    invariant
                        out@.len() + statements@.len() == n0,
                        n0 == original->Block_0.statements@.len(),
                        original is Block,
                        free ==> forall|k: int| 0 <= k < statements@.len() ==> match #[trigger] statements@[k] {
                            Statement::Expression(x) => generates_freely(x, f as nat),
                            Statement::ConstantDeclaration(_) => false,
                        },
                        scopes_grown(old(env), env),
                        scopes_grown(&after_child, env),
                        body_scope_id < after_child.scopes@.len(),
                        after_child.scopes@[body_scope_id as int].parent == scope_id,
                        constants@.len() == old(constants)@.len(),
                        f + 1 == fuel,
                        generates_freely(expression, fuel as nat) ==> free,
                        free ==> *constants == *old(constants),
                        !(expression is Literal || expression is Void || expression is SelfRef || expression is ConstUse),
                        !(expression matches Expression::Block(b) && b.statements@.len() == 0),
                        out@.len() + statements@.len() > 0,
                        forall|k: int|
                            0 <= k < out@.len() ==> match #[trigger] out@[k] {
                                Statement::Expression(x) => expression_marked(x, env.scopes@, body_scope_id),
                                _ => true,
                            },
                    decreases statements@.len(),
                {
                    let ghost before_ss = statements@;
                    let statement = statements.remove(0);
                    proof {
                        if free {
                            assert(match before_ss[0] {
                                Statement::Expression(x) => generates_freely(x, f as nat),
                                Statement::ConstantDeclaration(_) => false,
                            });
                            assert forall|k: int| 0 <= k < statements@.len() implies match #[trigger] statements@[k] {
                                Statement::Expression(x) => generates_freely(x, f as nat),
                                Statement::ConstantDeclaration(_) => false,
                            } by {
                                assert(statements@[k] == before_ss[k + 1]);
                            }
                        }
                    }
                    let ghost before = *env;
                    let generated = Self::generate_for_statement(env, constants, statement, body_scope_id, f)?;
                    proof {
                        assert forall|k: int| 0 <= k < out@.len() implies match #[trigger] out@[k] {
                            Statement::Expression(x) => expression_marked(x, env.scopes@, body_scope_id),
                            _ => true,
                        } by {
                            match out@[k] {
                                Statement::Expression(x) => lemma_marked_grows(x, before.scopes@, env.scopes@, body_scope_id),
                                _ => {},
                            }
                        }
                    }
                    out.push(generated);
                }
                proof {
                    assert(env.scopes@[body_scope_id as int] == after_child.scopes@[body_scope_id as int]);
                }
                Ok(Expression::Block(Block { statements: out, scope: body_scope_id }))
            },
            Expression::Collection(elements) => {
                proof {
                    if free {
                        assert(subdivided matches Expression::Collection(x) && x == elements);
                    }
                }
                proof {
                    assert(expression matches Expression::Collection(x) && x == elements);
                }
                let ghost total = elements@.len();
                let mut elements = elements;
                let mut out: Vec<Expression> = Vec::new();
                while elements.len() > 0
                    invariant
                        out@.len() + elements@.len() == total,
                        expression matches Expression::Collection(x) && x@.len() == total,
                        free ==> forall|k: int| 0 <= k < elements@.len() ==> generates_freely(#[trigger] elements@[k], f as nat),
                        scopes_grown(old(env), env),
                        scope_id < env.scopes@.len(),
                        constants@.len() == old(constants)@.len(),
                        f + 1 == fuel,
                        generates_freely(expression, fuel as nat) ==> free,
                        free ==> *constants == *old(constants),
                        !(expression is Literal || expression is Void || expression is SelfRef || expression is ConstUse),
                        !(expression matches Expression::Block(b) && b.statements@.len() == 0),
                        forall|k: int| 0 <= k < out@.len() ==> expression_marked(#[trigger] out@[k], env.scopes@, scope_id),
                    decreases elements@.len(),
                {
                    let ghost before_es = elements@;
                    let e = elements.remove(0);
                    proof {
                        if free {
                            assert(generates_freely(before_es[0], f as nat));
                            assert forall|k: int| 0 <= k < elements@.len() implies generates_freely(#[trigger] elements@[k], f as nat) by {
                                assert(elements@[k] == before_es[k + 1]);
                            }
                        }
                    }
                    let ghost before = *env;
                    let generated = Self::generate_for_expression(env, constants, e, scope_id, f)?;
                    proof {
                        assert forall|k: int| 0 <= k < out@.len() implies expression_marked(
                            #[trigger] out@[k],
                            env.scopes@,
                            scope_id,
                        ) by {
                            lemma_marked_grows(out@[k], before.scopes@, env.scopes@, scope_id);
                        }
                    }
                    out.push(generated);
                }
                Ok(Expression::Collection(out))
            },
        }
    }

    /// Walks the expression of a parameter.
    fn generate_for_parameter(
        env: &mut Environment,
        constants: &mut Vec<ConstantDeclaration>,
        parameter: Parameter,
        scope_id: ScopeId,
        fuel: usize,
    ) -> (res: Result<Parameter, EnvError>)
        requires
            old(env).wf(),
            scope_id < old(env).scopes@.len(),
        ensures
            scopes_grown(old(env), final(env)),
            final(constants)@.len() == old(constants)@.len(),
            res matches Ok(out) ==> parameter_marked(out, final(env).scopes@, scope_id),
            fuel == 0 ==> res == Err::<Parameter, EnvError>(EnvError::NestingTooDeep),
            res matches Ok(out) ==> (out is Plain <==> parameter is Plain),
            parameter matches Parameter::Labelled { label, .. } ==> (res matches Ok(Parameter::Labelled { label: l, .. })
                ==> l == label),
            fuel > 0 && (match parameter {
                Parameter::Plain(v) => v is Literal || v is Void,
                Parameter::Labelled { content, .. } => content is Literal || content is Void,
            }) ==> res == Ok::<Parameter, EnvError>(parameter) && *final(env) == *old(env),
            generates_freely(parameter_value(parameter), fuel as nat) ==> res is Ok && *final(constants) == *old(constants),
        decreases fuel, 2nat,
    {
        match parameter {
            Parameter::Plain(value) => Ok(Parameter::Plain(Self::generate_for_expression(env, constants, value, scope_id, fuel)?)),
            Parameter::Labelled { label, content } => Ok(Parameter::Labelled {
                label,
                content: Self::generate_for_expression(env, constants, content, scope_id, fuel)?,
            }),
        }
    }

    /// Walks a statement of a block.
    fn generate_for_statement(
        env: &mut Environment,
        constants: &mut Vec<ConstantDeclaration>,
        statement: Statement,
        scope_id: ScopeId,
        fuel: usize,
    ) -> (res: Result<Statement, EnvError>)
        requires
            old(env).wf(),
            scope_id < old(env).scopes@.len(),
        ensures
            scopes_grown(old(env), final(env)),
            final(constants)@.len() == old(constants)@.len(),
            res matches Ok(out) ==> match out {
                Statement::Expression(x) => expression_marked(x, final(env).scopes@, scope_id),
                _ => true,
            },
            res matches Ok(out) ==> (out is Expression <==> statement is Expression),
            statement is ConstantDeclaration ==> (res matches Ok(out) ==> out == statement),
            statement is Expression && fuel == 0 ==> res == Err::<Statement, EnvError>(EnvError::NestingTooDeep),
            statement matches Statement::ConstantDeclaration(i) && i >= old(constants)@.len()
                ==> res == Err::<Statement, EnvError>(EnvError::InvalidState),
            statement matches Statement::Expression(e) && fuel > 0 && (e is Literal || e is Void)
                ==> res == Ok::<Statement, EnvError>(statement) && *final(env) == *old(env),
            statement matches Statement::Expression(e) && generates_freely(e, fuel as nat) ==> res is Ok && *final(constants)
                == *old(constants),
        decreases fuel, 4nat,
    {
        match statement {
            Statement::Expression(e) => Ok(Statement::Expression(Self::generate_for_expression(env, constants, e, scope_id, fuel)?)),
            Statement::ConstantDeclaration(index) => {
                Self::generate_for_constant(env, constants, index, scope_id, fuel)?;
                Ok(Statement::ConstantDeclaration(index))
            },
        }
    }

    /// Gives a struct with fields or attributes a body scope: its field types are named from
    /// that scope and its attributes live in it; default values of fields are walked in the
    /// scope around the struct.
    fn generate_for_struct_declaration(
        env: &mut Environment,
        syntax_tree: &mut AbstractSyntaxTree,
        index: usize,
        scope_id: ScopeId,
    ) -> (res: Result<(), EnvError>)
        requires
            old(env).wf(),
            scope_id < old(env).scopes@.len(),
        ensures
            scopes_grown(old(env), final(env)),
            final(syntax_tree).compilation_unit == old(syntax_tree).compilation_unit,
            final(syntax_tree).structs@.len() == old(syntax_tree).structs@.len(),
            forall|k: int|
                0 <= k < old(syntax_tree).structs@.len() && k != index ==> #[trigger] final(syntax_tree).structs@[k] == old(
                    syntax_tree,
                ).structs@[k],
            final(syntax_tree).traits == old(syntax_tree).traits,
            res is Ok ==> index < old(syntax_tree).structs@.len() && struct_marked(
                final(syntax_tree).structs@[index as int],
                final(env).scopes@,
                scope_id,
            ),
            index >= old(syntax_tree).structs@.len() ==> res == Err::<(), EnvError>(EnvError::InvalidState),
            index < old(syntax_tree).structs@.len() ==> final(syntax_tree).structs@[index as int].name
                == old(syntax_tree).structs@[index as int].name,
            index < old(syntax_tree).structs@.len() && old(syntax_tree).structs@[index as int].fields@.len() == 0
                && (old(syntax_tree).structs@[index as int].body matches Some(b) ==> b.attributes@.len() == 0)
                ==> res is Ok && *final(env) == *old(env) && *final(syntax_tree) == *old(syntax_tree),
            index < old(syntax_tree).structs@.len() && walks_no_value(old(syntax_tree).structs@[index as int]) ==> res is Ok
                && final(syntax_tree).constants == old(syntax_tree).constants,
    {
        if index >= syntax_tree.structs.len() {
            return Err(EnvError::InvalidState);
        }
        let no_attributes = match &syntax_tree.structs[index].body {
            Some(body) => body.attributes.len() == 0,
            None => true,
        };
        if no_attributes && syntax_tree.structs[index].fields.len() == 0 {
            return Ok(());
        }
        let body_scope = env.add_child_scope(scope_id);
        let ghost with_body = env.scopes@;
        let ghost orig = syntax_tree.structs@[index as int];
        let mut declaration = StructDeclaration { name: Vec::new(), fields: Vec::new(), body: None };
        std::mem::swap(&mut declaration, &mut syntax_tree.structs[index]);
        let ghost taken = *syntax_tree;
        let StructDeclaration { name, fields, body } = declaration;
        let mut fields = fields;
        let mut out_fields: Vec<Field> = Vec::new();
        let mut failure: Option<EnvError> = None;
        while fields.len() > 0
            invariant
                scopes_grown(old(env), env),
                scope_id < env.scopes@.len(),
                body_scope < env.scopes@.len(),
                body_scope == with_body.len() - 1,
                scopes_prefix(with_body, env.scopes@),
                with_body[body_scope as int].parent == scope_id,
                syntax_tree.compilation_unit == old(syntax_tree).compilation_unit,
                syntax_tree.structs == taken.structs,
                syntax_tree.traits == taken.traits,
                walks_no_value(orig) ==> syntax_tree.constants == old(syntax_tree).constants,
                walks_no_value(orig) ==> failure is None && forall|j: int|
                    0 <= j < fields@.len() ==> (#[trigger] fields@[j]).default_value is None,
                forall|i: int|
                    0 <= i < out_fields@.len() ==> (#[trigger] out_fields@[i]).field_type.name.scope == body_scope && (
                    failure is None ==> (out_fields@[i].default_value matches Some(v) ==> expression_marked(
                        v,
                        env.scopes@,
                        scope_id,
                    ))),
            decreases fields@.len(),
        {
            let ghost fields_before = fields@;
            let field = fields.remove(0);
            proof {
                if walks_no_value(orig) {
                    assert(fields_before[0].default_value is None);
                    assert forall|j: int| 0 <= j < fields@.len() implies (#[trigger] fields@[j]).default_value is None by {
                        assert(fields@[j] == fields_before[j + 1]);
                    }
                }
            }
            let Field { name: field_name, field_type, default_value } = field;
            let mut field_type = field_type;
            field_type.name.set_scope(body_scope);
            let ghost before = env.scopes@;
            let default_value = match default_value {
                Some(v) => {
                    match Self::generate_for_expression(env, &mut syntax_tree.constants, v, scope_id, MAX_NESTING) {
                        Ok(v) => Some(v),
                        Err(e) => {
                            failure = Some(e);
                            None
                        },
                    }
                },
                None => None,
            };
            proof {
                assert forall|i: int| 0 <= i < out_fields@.len() && failure is None && (#[trigger] out_fields@[i]).default_value is Some
                    implies expression_marked(out_fields@[i].default_value->0, env.scopes@, scope_id) by {
                    lemma_marked_grows(out_fields@[i].default_value->0, before, env.scopes@, scope_id);
                }
            }
            out_fields.push(Field { name: field_name, field_type, default_value });
        }
        let ghost after_fields = env.scopes@;
        let body = match body {
            Some(b) => {
                let mut i: usize = 0;
                while i < b.attributes.len()
                    invariant
                        scopes_grown(old(env), env),
                        body_scope < env.scopes@.len(),
                        scopes_prefix(after_fields, env.scopes@),
                        syntax_tree.compilation_unit == old(syntax_tree).compilation_unit,
                        syntax_tree.structs == taken.structs,
                        syntax_tree.traits == taken.traits,
                        walks_no_value(orig) ==> failure is None && b.attributes@.len() == 0,
                        walks_no_value(orig) ==> syntax_tree.constants == old(syntax_tree).constants,
                        forall|k: int|
                            0 <= k < out_fields@.len() ==> (#[trigger] out_fields@[k]).field_type.name.scope == body_scope && (
                            failure is None ==> (out_fields@[k].default_value matches Some(v) ==> expression_marked(
                                v,
                                after_fields,
                                scope_id,
                            ))),
                    decreases b.attributes@.len() - i,
                {
                    if failure.is_none() {
                        match Self::generate_for_constant(env, &mut syntax_tree.constants, b.attributes[i], body_scope, MAX_NESTING) {
                            Ok(()) => {},
                            Err(e) => {
                                failure = Some(e);
                            },
                        }
                    }
                    i = i + 1;
                }
                Some(crate::ast::StructBody { attributes: b.attributes, scope: body_scope })
            },
            None => None,
        };
        let mut declaration = StructDeclaration { name, fields: out_fields, body };
        proof {
            if failure is None {
                assert forall|i: int| 0 <= i < declaration.fields@.len() && (#[trigger] declaration.fields@[i]).default_value is Some
                    implies expression_marked(declaration.fields@[i].default_value->0, env.scopes@, scope_id) by {
                    lemma_marked_grows(declaration.fields@[i].default_value->0, after_fields, env.scopes@, scope_id);
                }
                assert(env.scopes@[body_scope as int] == with_body[body_scope as int]);
                assert(struct_marked(declaration, env.scopes@, scope_id)) by {
                    assert(body_scope < env.scopes@.len() && env.scopes@[body_scope as int].parent == scope_id);
                }
            }
        }
        if index < syntax_tree.structs.len() {
            std::mem::swap(&mut declaration, &mut syntax_tree.structs[index]);
        }
        match failure {
            Some(e) => Err(e),
            None => Ok(()),
        }
    }

    /// The types that a trait requires are named from the scope the trait is declared in.
    fn generate_for_trait_declaration(syntax_tree: &mut AbstractSyntaxTree, index: usize, scope_id: ScopeId)
        ensures
            final(syntax_tree).compilation_unit == old(syntax_tree).compilation_unit,
            final(syntax_tree).structs == old(syntax_tree).structs,
            final(syntax_tree).constants == old(syntax_tree).constants,
            final(syntax_tree).traits@.len() == old(syntax_tree).traits@.len(),
            forall|k: int|
                0 <= k < old(syntax_tree).traits@.len() && k != index ==> #[trigger] final(syntax_tree).traits@[k] == old(
                    syntax_tree,
                ).traits@[k],
            index < old(syntax_tree).traits@.len() ==> trait_marked(final(syntax_tree).traits@[index as int], scope_id),
    {
        if index >= syntax_tree.traits.len() {
            return;
        }
        let mut declaration = crate::ast::TraitDeclaration { name: Vec::new(), required: Vec::new() };
        std::mem::swap(&mut declaration, &mut syntax_tree.traits[index]);
        let mut required = declaration.required;
        let mut out: Vec<Field> = Vec::new();
        while required.len() > 0
            invariant
                forall|i: int| 0 <= i < out@.len() ==> (#[trigger] out@[i]).field_type.name.scope == scope_id,
            decreases required@.len(),
        {
            let field = required.remove(0);
            let Field { name, field_type, default_value } = field;
            let mut field_type = field_type;
            field_type.name.set_scope(scope_id);
            out.push(Field { name, field_type, default_value });
        }
        let mut declaration = crate::ast::TraitDeclaration { name: declaration.name, required: out };
        std::mem::swap(&mut declaration, &mut syntax_tree.traits[index]);
    }
}

} // verus!
