//! Declares the constants, structs and traits of the syntax trees in their scopes and
//! collects the names that remain to be resolved.
use crate::ast::{
    GLOBAL_SCOPE, AbstractSyntaxTree, Accessor, DeclId, Declaration, Expression, Field, Name, Parameter, ScopeId, Statement,
};
use crate::env::construction::scope_operations::MAX_NESTING;
use crate::env::environment::{lemma_module_at_extended, module_at, Environment};
use crate::env::error::EnvError;
use crate::env::scope::DeclaredElement;
use crate::names::{copy_bytes, join_path, path_view, Ident, TableKey};
use vstd::prelude::*;

verus! {

/// Names met while declaring: names of types, and names used as values.
pub struct UnresolvedNames {
    pub type_names: Vec<Name>,
    pub expression_names: Vec<Name>,
}

/// The key of each name: its components and its scope.
pub open spec fn keys_of(names: Seq<Name>) -> Seq<(Seq<Seq<u8>>, ScopeId)> {
    names.map_values(|n: Name| n.spec_key())
}

/// The names collected so far, by their keys: names of types, and names used as values.
pub open spec fn collected(u: &UnresolvedNames) -> (Seq<(Seq<Seq<u8>>, ScopeId)>, Seq<(Seq<Seq<u8>>, ScopeId)>) {
    (keys_of(u.type_names@), keys_of(u.expression_names@))
}

/// Two collections of names, one after the other.
pub open spec fn then(
    a: (Seq<(Seq<Seq<u8>>, ScopeId)>, Seq<(Seq<Seq<u8>>, ScopeId)>),
    b: (Seq<(Seq<Seq<u8>>, ScopeId)>, Seq<(Seq<Seq<u8>>, ScopeId)>),
) -> (Seq<(Seq<Seq<u8>>, ScopeId)>, Seq<(Seq<Seq<u8>>, ScopeId)>) {
    (a.0 + b.0, a.1 + b.1)
}

/// No names at all.
pub open spec fn no_names() -> (Seq<(Seq<Seq<u8>>, ScopeId)>, Seq<(Seq<Seq<u8>>, ScopeId)>) {
    (Seq::empty(), Seq::empty())
}

/// The names an expression of tree `t` uses, in the order they are met, looking at most
/// `fuel` levels deep: the name of each struct it initializes as a type name, each
/// constant it uses as a value name, and the names of the constants its blocks declare.
pub open spec fn expression_names(trees: Seq<AbstractSyntaxTree>, t: int, e: Expression, fuel: nat) -> (
    Seq<(Seq<Seq<u8>>, ScopeId)>,
    Seq<(Seq<Seq<u8>>, ScopeId)>,
)
    decreases fuel, 1nat, 0nat,
{
    if fuel == 0 {
        no_names()
    } else {
        let f = (fuel - 1) as nat;
        match e {
            Expression::ConstUse(name) => (Seq::empty(), seq![name.spec_key()]),
            Expression::StructInit { name, parameters, init_content } => then(
                then((seq![name.spec_key()], Seq::empty()), parameters_names(trees, t, parameters@, f)),
                match init_content {
                    Some(content) => expressions_names(trees, t, content.expressions@, f),
                    None => no_names(),
                },
            ),
            Expression::ChainingMethodInvocation { receiver, accessors } => then(
                expression_names(trees, t, *receiver, f),
                accessors_names(trees, t, accessors@, f),
            ),
            Expression::Block(block) => statements_names(trees, t, block.statements@, f),
            Expression::FieldAccess { receiver, .. } => expression_names(trees, t, *receiver, f),
            Expression::Collection(elements) => expressions_names(trees, t, elements@, f),
            _ => no_names(),
        }
    }
}

/// The names of the expressions of parameters, one parameter after the other.
pub open spec fn parameters_names(trees: Seq<AbstractSyntaxTree>, t: int, ps: Seq<Parameter>, fuel: nat) -> (
    Seq<(Seq<Seq<u8>>, ScopeId)>,
    Seq<(Seq<Seq<u8>>, ScopeId)>,
)
    decreases fuel, 5nat, ps.len(),
{
    if ps.len() == 0 {
        no_names()
    } else {
        then(parameters_names(trees, t, ps.drop_last(), fuel), parameter_names(trees, t, ps.last(), fuel))
    }
}

/// The names of the expression of a parameter.
pub open spec fn parameter_names(trees: Seq<AbstractSyntaxTree>, t: int, p: Parameter, fuel: nat) -> (
    Seq<(Seq<Seq<u8>>, ScopeId)>,
    Seq<(Seq<Seq<u8>>, ScopeId)>,
)
    decreases fuel, 2nat, 0nat,
{
    match p {
        Parameter::Plain(v) => expression_names(trees, t, v, fuel),
        Parameter::Labelled { content, .. } => expression_names(trees, t, content, fuel),
    }
}

/// The names of expressions, one after the other.
pub open spec fn expressions_names(trees: Seq<AbstractSyntaxTree>, t: int, es: Seq<Expression>, fuel: nat) -> (
    Seq<(Seq<Seq<u8>>, ScopeId)>,
    Seq<(Seq<Seq<u8>>, ScopeId)>,
)
    decreases fuel, 5nat, es.len(),
{
    if es.len() == 0 {
        no_names()
    } else {
        then(expressions_names(trees, t, es.drop_last(), fuel), expression_names(trees, t, es.last(), fuel))
    }
}

/// The names of the values of accessors, one after the other.
pub open spec fn accessors_names(trees: Seq<AbstractSyntaxTree>, t: int, accessors: Seq<Accessor>, fuel: nat) -> (
    Seq<(Seq<Seq<u8>>, ScopeId)>,
    Seq<(Seq<Seq<u8>>, ScopeId)>,
)
    decreases fuel, 5nat, accessors.len(),
{
    if accessors.len() == 0 {
        no_names()
    } else {
        then(
            accessors_names(trees, t, accessors.drop_last(), fuel),
            match accessors.last().value {
                Some(v) => expression_names(trees, t, v, fuel),
                None => no_names(),
            },
        )
    }
}

/// The names of statements, one after the other.
pub open spec fn statements_names(trees: Seq<AbstractSyntaxTree>, t: int, statements: Seq<Statement>, fuel: nat) -> (
    Seq<(Seq<Seq<u8>>, ScopeId)>,
    Seq<(Seq<Seq<u8>>, ScopeId)>,
)
    decreases fuel, 5nat, statements.len(),
{
    if statements.len() == 0 {
        no_names()
    } else {
        then(statements_names(trees, t, statements.drop_last(), fuel), statement_names(trees, t, statements.last(), fuel))
    }
}

/// The names of a statement: those of its expression, or of the value of the constant it
/// declares.
pub open spec fn statement_names(trees: Seq<AbstractSyntaxTree>, t: int, statement: Statement, fuel: nat) -> (
    Seq<(Seq<Seq<u8>>, ScopeId)>,
    Seq<(Seq<Seq<u8>>, ScopeId)>,
)
    decreases fuel, 4nat, 0nat,
{
    match statement {
        Statement::Expression(e) => expression_names(trees, t, e, fuel),
        Statement::ConstantDeclaration(c) => constant_names(trees, t, c as int, fuel),
    }
}

/// The names of the value of constant `c` of tree `t`.
pub open spec fn constant_names(trees: Seq<AbstractSyntaxTree>, t: int, c: int, fuel: nat) -> (
    Seq<(Seq<Seq<u8>>, ScopeId)>,
    Seq<(Seq<Seq<u8>>, ScopeId)>,
)
    decreases fuel, 3nat, 0nat,
{
    if 0 <= c < trees[t].constants@.len() {
        expression_names(trees, t, trees[t].constants@[c].value, fuel)
    } else {
        no_names()
    }
}

/// The names of a field: the name of its type, then those of its default value.
pub open spec fn field_names(trees: Seq<AbstractSyntaxTree>, t: int, field: Field) -> (
    Seq<(Seq<Seq<u8>>, ScopeId)>,
    Seq<(Seq<Seq<u8>>, ScopeId)>,
) {
    then(
        (seq![field.field_type.name.spec_key()], Seq::empty()),
        match field.default_value {
            Some(v) => expression_names(trees, t, v, MAX_NESTING as nat),
            None => no_names(),
        },
    )
}

/// The names of fields, one after the other.
pub open spec fn fields_names(trees: Seq<AbstractSyntaxTree>, t: int, fields: Seq<Field>) -> (
    Seq<(Seq<Seq<u8>>, ScopeId)>,
    Seq<(Seq<Seq<u8>>, ScopeId)>,
)
    decreases fields.len(),
{
    if fields.len() == 0 {
        no_names()
    } else {
        then(fields_names(trees, t, fields.drop_last()), field_names(trees, t, fields.last()))
    }
}

/// The names of the values of constants of tree `t`, one after the other.
pub open spec fn constants_names(trees: Seq<AbstractSyntaxTree>, t: int, constants: Seq<usize>) -> (
    Seq<(Seq<Seq<u8>>, ScopeId)>,
    Seq<(Seq<Seq<u8>>, ScopeId)>,
)
    decreases constants.len(),
{
    if constants.len() == 0 {
        no_names()
    } else {
        then(
            constants_names(trees, t, constants.drop_last()),
            constant_names(trees, t, constants.last() as int, MAX_NESTING as nat),
        )
    }
}

/// The names of struct `index` of tree `t`: those of its fields, then those of the
/// attributes of its body.
pub open spec fn struct_names(trees: Seq<AbstractSyntaxTree>, t: int, index: int) -> (
    Seq<(Seq<Seq<u8>>, ScopeId)>,
    Seq<(Seq<Seq<u8>>, ScopeId)>,
) {
    if 0 <= index < trees[t].structs@.len() {
        let declaration = trees[t].structs@[index];
        then(
            fields_names(trees, t, declaration.fields@),
            match declaration.body {
                Some(body) => constants_names(trees, t, body.attributes@),
                None => no_names(),
            },
        )
    } else {
        no_names()
    }
}

/// The names of trait `index` of tree `t`: the names of the types it requires.
pub open spec fn trait_names(trees: Seq<AbstractSyntaxTree>, t: int, index: int) -> (
    Seq<(Seq<Seq<u8>>, ScopeId)>,
    Seq<(Seq<Seq<u8>>, ScopeId)>,
) {
    if 0 <= index < trees[t].traits@.len() {
        (trees[t].traits@[index].required@.map_values(|f: Field| f.field_type.name.spec_key()), Seq::empty())
    } else {
        no_names()
    }
}

/// The names of a declaration at the top of tree `t`.
pub open spec fn declaration_names(trees: Seq<AbstractSyntaxTree>, t: int, d: Declaration) -> (
    Seq<(Seq<Seq<u8>>, ScopeId)>,
    Seq<(Seq<Seq<u8>>, ScopeId)>,
) {
    match d {
        Declaration::Constant(c) => constant_names(trees, t, c as int, MAX_NESTING as nat),
        Declaration::Struct(c) => struct_names(trees, t, c as int),
        Declaration::Trait(c) => trait_names(trees, t, c as int),
        Declaration::Import(_) => no_names(),
    }
}

/// The names of declarations of tree `t`, one after the other.
pub open spec fn declarations_names(trees: Seq<AbstractSyntaxTree>, t: int, ds: Seq<Declaration>) -> (
    Seq<(Seq<Seq<u8>>, ScopeId)>,
    Seq<(Seq<Seq<u8>>, ScopeId)>,
)
    decreases ds.len(),
{
    if ds.len() == 0 {
        no_names()
    } else {
        then(declarations_names(trees, t, ds.drop_last()), declaration_names(trees, t, ds.last()))
    }
}

/// The names that tree `t` uses: names of types, and names used as values.
pub open spec fn tree_names(trees: Seq<AbstractSyntaxTree>, t: int) -> (
    Seq<(Seq<Seq<u8>>, ScopeId)>,
    Seq<(Seq<Seq<u8>>, ScopeId)>,
) {
    declarations_names(trees, t, trees[t].compilation_unit.declarations@)
}

/// The names that the first `n` trees use, one tree after the other.
pub open spec fn trees_names(trees: Seq<AbstractSyntaxTree>, n: int) -> (
    Seq<(Seq<Seq<u8>>, ScopeId)>,
    Seq<(Seq<Seq<u8>>, ScopeId)>,
)
    decreases n,
{
    if n <= 0 {
        no_names()
    } else {
        then(trees_names(trees, n - 1), tree_names(trees, n - 1))
    }
}

proof fn lemma_then_assoc(
    a: (Seq<(Seq<Seq<u8>>, ScopeId)>, Seq<(Seq<Seq<u8>>, ScopeId)>),
    b: (Seq<(Seq<Seq<u8>>, ScopeId)>, Seq<(Seq<Seq<u8>>, ScopeId)>),
    c: (Seq<(Seq<Seq<u8>>, ScopeId)>, Seq<(Seq<Seq<u8>>, ScopeId)>),
)
    ensures
        then(then(a, b), c) == then(a, then(b, c)),
{
    assert(then(then(a, b), c).0 =~= then(a, then(b, c)).0);
    assert(then(then(a, b), c).1 =~= then(a, then(b, c)).1);
}

proof fn lemma_then_none(a: (Seq<(Seq<Seq<u8>>, ScopeId)>, Seq<(Seq<Seq<u8>>, ScopeId)>))
    ensures
        then(a, no_names()) == a,
{
    assert(then(a, no_names()).0 =~= a.0);
    assert(then(a, no_names()).1 =~= a.1);
}

/// The scopes keep their number and their modules and imports; only declarations change.
pub open spec fn only_declarations_changed(env1: &Environment, env2: &Environment) -> bool {
    &&& env2.wf()
    &&& env1.scopes@.len() == env2.scopes@.len()
    &&& forall|i: int|
        0 <= i < env1.scopes@.len() ==> (#[trigger] env2.scopes@[i]).name_spaces.modules
            == env1.scopes@[i].name_spaces.modules && env2.scopes@[i].name_spaces.wildcard_imports
            == env1.scopes@[i].name_spaces.wildcard_imports && env2.scopes@[i].id == env1.scopes@[i].id
            && env2.scopes@[i].parent == env1.scopes@[i].parent
    &&& forall|i: int, k: Seq<u8>|
        0 <= i < env1.scopes@.len() && (#[trigger] env1.scopes@[i].name_spaces.declared.get_spec(k)) is Some
            ==> env2.scopes@[i].name_spaces.declared.get_spec(k) is Some
}

proof fn lemma_only_declarations_trans(e1: &Environment, e2: &Environment, e3: &Environment)
    requires
        only_declarations_changed(e1, e2),
        only_declarations_changed(e2, e3),
    ensures
        only_declarations_changed(e1, e3),
{
    assert forall|i: int, k: Seq<u8>|
        0 <= i < e1.scopes@.len() && (#[trigger] e1.scopes@[i].name_spaces.declared.get_spec(k)) is Some
        implies e3.scopes@[i].name_spaces.declared.get_spec(k) is Some by {
        assert(e2.scopes@[i].name_spaces.declared.get_spec(k) is Some);
    }
    assert forall|i: int| 0 <= i < e1.scopes@.len() implies (#[trigger] e3.scopes@[i]).name_spaces.modules
        == e1.scopes@[i].name_spaces.modules && e3.scopes@[i].name_spaces.wildcard_imports
        == e1.scopes@[i].name_spaces.wildcard_imports && e3.scopes@[i].id == e1.scopes@[i].id
        && e3.scopes@[i].parent == e1.scopes@[i].parent by {
        assert(e2.scopes@[i] == e2.scopes@[i]);
    }
}

proof fn lemma_declare_only_declarations(e1: &Environment, e2: &Environment, scope_id: int, name: Seq<u8>)
    requires
        e1.wf(),
        e2.wf(),
        0 <= scope_id < e1.scopes@.len(),
        crate::env::environment::same_except(e2.scopes@, e1.scopes@, scope_id),
        e2.scopes@[scope_id].name_spaces.declared.get_spec(name) is Some,
        forall|k: Seq<u8>|
            k != name ==> #[trigger] e2.scopes@[scope_id].name_spaces.declared.get_spec(k)
                == e1.scopes@[scope_id].name_spaces.declared.get_spec(k),
        e2.scopes@[scope_id].name_spaces.modules == e1.scopes@[scope_id].name_spaces.modules,
        e2.scopes@[scope_id].name_spaces.wildcard_imports == e1.scopes@[scope_id].name_spaces.wildcard_imports,
    ensures
        only_declarations_changed(e1, e2),
{
    assert forall|i: int, k: Seq<u8>|
        0 <= i < e1.scopes@.len() && (#[trigger] e1.scopes@[i].name_spaces.declared.get_spec(k)) is Some
        implies e2.scopes@[i].name_spaces.declared.get_spec(k) is Some by {
        if i != scope_id {
            assert(e2.scopes@[i] == e1.scopes@[i]);
        }
    }
    assert forall|i: int| 0 <= i < e1.scopes@.len() implies (#[trigger] e2.scopes@[i]).name_spaces.modules
        == e1.scopes@[i].name_spaces.modules && e2.scopes@[i].name_spaces.wildcard_imports
        == e1.scopes@[i].name_spaces.wildcard_imports && e2.scopes@[i].id == e1.scopes@[i].id
        && e2.scopes@[i].parent == e1.scopes@[i].parent by {
        if i != scope_id {
            assert(e2.scopes@[i] == e1.scopes@[i]);
        }
    }
}

/// The word `self`, which a struct body declares for the struct.
pub open spec fn self_word() -> Seq<u8> {
    seq![115u8, 101, 108, 102]
}

/// Every name but `self` that a scope of `e1` declares stands for the same declaration in
/// `e2`.
pub open spec fn declarations_kept(e1: &Environment, e2: &Environment) -> bool {
    forall|i: int, k: Seq<u8>|
        0 <= i < e1.scopes@.len() && k != self_word() && (#[trigger] e1.scopes@[i].name_spaces.declared.get_spec(k)) is Some
            ==> e2.scopes@[i].name_spaces.declared.get_spec(k) == e1.scopes@[i].name_spaces.declared.get_spec(k)
}

/// What a declaration of tree `t` is declared as in scope `s`: a constant, struct or trait
/// under its name, unless that name is `self`.
pub open spec fn declared_in_scope(env: &Environment, s: int, trees: Seq<AbstractSyntaxTree>, t: int, d: Declaration) -> bool {
    let declared = env.scopes@[s].name_spaces.declared;
    match d {
        Declaration::Constant(c) => c < trees[t].constants@.len() && (trees[t].constants@[c as int].name@ != self_word()
            ==> declared.get_spec(trees[t].constants@[c as int].name@) == Some(DeclaredElement::Constant(DeclId { tree: t as usize, index: c }))),
        Declaration::Struct(c) => c < trees[t].structs@.len() && (trees[t].structs@[c as int].name@ != self_word()
            ==> declared.get_spec(trees[t].structs@[c as int].name@) == Some(DeclaredElement::Struct(DeclId { tree: t as usize, index: c }))),
        Declaration::Trait(c) => c < trees[t].traits@.len() && (trees[t].traits@[c as int].name@ != self_word()
            ==> declared.get_spec(trees[t].traits@[c as int].name@) == Some(DeclaredElement::Trait(DeclId { tree: t as usize, index: c }))),
        Declaration::Import(_) => true,
    }
}

/// The declarations at the top of tree `t` stand in the scope of its module.
pub open spec fn tree_declared(env: &Environment, trees: Seq<AbstractSyntaxTree>, paths: Seq<Vec<Ident>>, t: int) -> bool {
    &&& module_at(env.scopes@, GLOBAL_SCOPE, path_view(paths[t]@)) matches Some(m)
    &&& m < env.scopes@.len()
    &&& forall|i: int|
        0 <= i < trees[t].compilation_unit.declarations@.len() ==> declared_in_scope(
            env,
            m as int,
            trees,
            t,
            #[trigger] trees[t].compilation_unit.declarations@[i],
        )
}

proof fn lemma_kept_trans(e1: &Environment, e2: &Environment, e3: &Environment)
    requires
        declarations_kept(e1, e2),
        declarations_kept(e2, e3),
        e1.scopes@.len() == e2.scopes@.len(),
    ensures
        declarations_kept(e1, e3),
{
    assert forall|i: int, k: Seq<u8>|
        0 <= i < e1.scopes@.len() && k != self_word() && (#[trigger] e1.scopes@[i].name_spaces.declared.get_spec(k)) is Some
        implies e3.scopes@[i].name_spaces.declared.get_spec(k) == e1.scopes@[i].name_spaces.declared.get_spec(k) by {
        assert(e2.scopes@[i].name_spaces.declared.get_spec(k) == e1.scopes@[i].name_spaces.declared.get_spec(k));
    }
}

proof fn lemma_declare_kept(e1: &Environment, e2: &Environment, scope_id: int, name: Seq<u8>)
    requires
        0 <= scope_id < e1.scopes@.len(),
        crate::env::environment::same_except(e2.scopes@, e1.scopes@, scope_id),
        e1.scopes@[scope_id].name_spaces.declared.get_spec(name) is None || name == self_word(),
        forall|k: Seq<u8>|
            k != name ==> #[trigger] e2.scopes@[scope_id].name_spaces.declared.get_spec(k)
                == e1.scopes@[scope_id].name_spaces.declared.get_spec(k),
    ensures
        declarations_kept(e1, e2),
{
    assert forall|i: int, k: Seq<u8>|
        0 <= i < e1.scopes@.len() && k != self_word() && (#[trigger] e1.scopes@[i].name_spaces.declared.get_spec(k)) is Some
        implies e2.scopes@[i].name_spaces.declared.get_spec(k) == e1.scopes@[i].name_spaces.declared.get_spec(k) by {
        if i != scope_id {
            assert(e2.scopes@[i] == e1.scopes@[i]);
        }
    }
}

proof fn lemma_kept_declared(e1: &Environment, e2: &Environment, s: int, trees: Seq<AbstractSyntaxTree>, t: int, d: Declaration)
    requires
        declarations_kept(e1, e2),
        0 <= s < e1.scopes@.len(),
        declared_in_scope(e1, s, trees, t, d),
    ensures
        declared_in_scope(e2, s, trees, t, d),
{
    match d {
        Declaration::Constant(c) => {
            let n = trees[t].constants@[c as int].name@;
            if n != self_word() {
                assert(e1.scopes@[s].name_spaces.declared.get_spec(n) is Some);
            }
        },
        Declaration::Struct(c) => {
            let n = trees[t].structs@[c as int].name@;
            if n != self_word() {
                assert(e1.scopes@[s].name_spaces.declared.get_spec(n) is Some);
            }
        },
        Declaration::Trait(c) => {
            let n = trees[t].traits@[c as int].name@;
            if n != self_word() {
                assert(e1.scopes@[s].name_spaces.declared.get_spec(n) is Some);
            }
        },
        Declaration::Import(_) => {},
    }
}

proof fn lemma_tree_declared_kept(e1: &Environment, e2: &Environment, trees: Seq<AbstractSyntaxTree>, paths: Seq<Vec<Ident>>, t: int)
    requires
        only_declarations_changed(e1, e2),
        declarations_kept(e1, e2),
        tree_declared(e1, trees, paths, t),
    ensures
        tree_declared(e2, trees, paths, t),
{
    let m = module_at(e1.scopes@, GLOBAL_SCOPE, path_view(paths[t]@))->0;
    lemma_module_at_kept(e1, e2, path_view(paths[t]@));
    assert forall|i: int| 0 <= i < trees[t].compilation_unit.declarations@.len() implies declared_in_scope(
        e2,
        m as int,
        trees,
        t,
        #[trigger] trees[t].compilation_unit.declarations@[i],
    ) by {
        lemma_kept_declared(e1, e2, m as int, trees, t, trees[t].compilation_unit.declarations@[i]);
    }
}

pub proof fn lemma_module_at_kept(e1: &Environment, e2: &Environment, names: Seq<Seq<u8>>)
    requires
        only_declarations_changed(e1, e2),
        module_at(e1.scopes@, GLOBAL_SCOPE, names) is Some,
    ensures
        module_at(e2.scopes@, GLOBAL_SCOPE, names) == module_at(e1.scopes@, GLOBAL_SCOPE, names),
{
    assert forall|i: int, k: Seq<u8>|
        0 <= i < e1.scopes@.len() && (#[trigger] e1.scopes@[i].name_spaces.modules.get_spec(k)) is Some
        implies e2.scopes@[i].name_spaces.modules.get_spec(k) == e1.scopes@[i].name_spaces.modules.get_spec(k) by {
        assert(e2.scopes@[i].name_spaces.modules == e1.scopes@[i].name_spaces.modules);
    }
    lemma_module_at_extended(e1.scopes@, e2.scopes@, GLOBAL_SCOPE, names);
}

/// An expression that declares nothing and holds no other expression.
pub open spec fn is_leaf(e: Expression) -> bool {
    e is ConstUse || e is Literal || e is SelfRef || e is Void
}

/// Whether the walk over an expression meets no error when the environment holds `n`
/// scopes: it is at most `fuel` levels deep, and each block with statements has a scope of
/// the environment and holds expressions only, so that nothing is declared.
pub open spec fn walks_freely(e: Expression, fuel: nat, n: nat) -> bool
    decreases e,
{
    &&& fuel > 0
    &&& match e {
        Expression::StructInit { parameters, init_content, .. } => {
            &&& forall|i: int|
                0 <= i < parameters@.len() ==> match #[trigger] parameters@[i] {
                    Parameter::Plain(v) => walks_freely(v, (fuel - 1) as nat, n),
                    Parameter::Labelled { content, .. } => walks_freely(content, (fuel - 1) as nat, n),
                }
            &&& match init_content {
                Some(c) => forall|i: int| 0 <= i < c.expressions@.len() ==> walks_freely(#[trigger] c.expressions@[i], (fuel - 1) as nat, n),
                None => true,
            }
        },
        Expression::ChainingMethodInvocation { receiver, accessors } => {
            &&& walks_freely(*receiver, (fuel - 1) as nat, n)
            &&& forall|i: int|
                0 <= i < accessors@.len() ==> match #[trigger] accessors@[i].value {
                    Some(v) => walks_freely(v, (fuel - 1) as nat, n),
                    None => true,
                }
        },
        Expression::FieldAccess { receiver, .. } => walks_freely(*receiver, (fuel - 1) as nat, n),
        Expression::Collection(elements) => forall|i: int|
            0 <= i < elements@.len() ==> walks_freely(#[trigger] elements@[i], (fuel - 1) as nat, n),
        Expression::Block(b) => b.statements@.len() == 0 || (b.scope < n && forall|i: int|
            0 <= i < b.statements@.len() ==> match #[trigger] b.statements@[i] {
                Statement::Expression(x) => walks_freely(x, (fuel - 1) as nat, n),
                Statement::ConstantDeclaration(_) => false,
            }),
        _ => true,
    }
}

/// Whether the expression is a block with statements whose walk cannot fail in the
/// environment: its scope exists, its expressions walk freely, and each constant it
/// declares exists, has a value that walks freely and a name that the block's scope does
/// not declare yet, and no two of its constants share a name.
pub open spec fn block_declares_freely(trees: Seq<AbstractSyntaxTree>, t: int, e: Expression, fuel: nat, env: &Environment) -> bool {
    &&& fuel > 0
    &&& e matches Expression::Block(b)
    &&& b.statements@.len() > 0
    &&& b.scope < env.scopes@.len()
    &&& forall|i: int|
        0 <= i < b.statements@.len() ==> match #[trigger] b.statements@[i] {
            Statement::Expression(x) => walks_freely(x, (fuel - 1) as nat, env.scopes@.len()),
            Statement::ConstantDeclaration(c) => c < trees[t].constants@.len() && walks_freely(
                trees[t].constants@[c as int].value,
                (fuel - 1) as nat,
                env.scopes@.len(),
            ) && !name_taken(env, b.scope as int, trees[t].constants@[c as int].name@),
        }
    &&& forall|i: int, j: int|
        0 <= i < j < b.statements@.len() && (#[trigger] b.statements@[i]) is ConstantDeclaration
            && (#[trigger] b.statements@[j]) is ConstantDeclaration ==> trees[t].constants@[b.statements@[i]->ConstantDeclaration_0 as int].name@
            != trees[t].constants@[b.statements@[j]->ConstantDeclaration_0 as int].name@
}

/// The second environment is the first with one more name declared in scope `s`, and
/// nothing else changed.
pub open spec fn declares_only(e1: &Environment, e2: &Environment, s: int, name: Seq<u8>) -> bool {
    &&& e2.scopes@.len() == e1.scopes@.len()
    &&& forall|j: int| 0 <= j < e1.scopes@.len() && j != s ==> #[trigger] e2.scopes@[j] == e1.scopes@[j]
    &&& e2.scopes@[s].name_spaces.declared.get_spec(name) is Some
    &&& forall|k: Seq<u8>|
        k != name ==> #[trigger] e2.scopes@[s].name_spaces.declared.get_spec(k) == e1.scopes@[s].name_spaces.declared.get_spec(k)
    &&& e2.resolved_names == e1.resolved_names
}

/// The name that a declaration of tree `t` declares, if it declares one.
pub open spec fn decl_name(trees: Seq<AbstractSyntaxTree>, t: int, d: Declaration) -> Option<Seq<u8>> {
    match d {
        Declaration::Constant(c) => if c < trees[t].constants@.len() {
            Some(trees[t].constants@[c as int].name@)
        } else {
            None
        },
        Declaration::Struct(c) => if c < trees[t].structs@.len() {
            Some(trees[t].structs@[c as int].name@)
        } else {
            None
        },
        Declaration::Trait(c) => if c < trees[t].traits@.len() {
            Some(trees[t].traits@[c as int].name@)
        } else {
            None
        },
        Declaration::Import(_) => None,
    }
}

/// The scope of the body of a struct declaration of tree `t`, if it has a body.
pub open spec fn decl_body(trees: Seq<AbstractSyntaxTree>, t: int, d: Declaration) -> Option<int> {
    match d {
        Declaration::Struct(c) => if c < trees[t].structs@.len() {
            match trees[t].structs@[c as int].body {
                Some(b) => Some(b.scope as int),
                None => None,
            }
        } else {
            None
        },
        _ => None,
    }
}

/// The second environment is the first where only the declarations of scope `s` under the
/// name and the scope `other`, if any, may differ.
pub open spec fn changed_only(e1: &Environment, e2: &Environment, s: int, name: Option<Seq<u8>>, other: Option<int>) -> bool {
    &&& e2.scopes@.len() == e1.scopes@.len()
    &&& forall|j: int| 0 <= j < e1.scopes@.len() && j != s && other != Some(j) ==> #[trigger] e2.scopes@[j] == e1.scopes@[j]
    &&& forall|k: Seq<u8>|
        name != Some(k) ==> #[trigger] e2.scopes@[s].name_spaces.declared.get_spec(k) == e1.scopes@[s].name_spaces.declared.get_spec(k)
}

/// Whether declaring a declaration of tree `t` in scope `s` meets no error: a constant
/// of the tree whose name is free there and whose value walks freely, a struct that
/// declares cleanly, a trait of the tree whose name is free there, or an import.
pub open spec fn declaration_clean(env: &Environment, trees: Seq<AbstractSyntaxTree>, t: int, d: Declaration, s: int) -> bool {
    match d {
        Declaration::Constant(c) => c < trees[t].constants@.len() && !name_taken(env, s, trees[t].constants@[c as int].name@)
            && walks_freely(trees[t].constants@[c as int].value, MAX_NESTING as nat, env.scopes@.len()),
        Declaration::Struct(c) => struct_declares_cleanly(env, trees, t, c as int, s),
        Declaration::Trait(c) => c < trees[t].traits@.len() && !name_taken(env, s, trees[t].traits@[c as int].name@),
        Declaration::Import(_) => true,
    }
}

/// Whether declaring the declarations of tree `t` in scope `s` meets no error: each is
/// clean, no two declare the same name, and no two structs share the scope of a body.
pub open spec fn tree_declares_cleanly(env: &Environment, trees: Seq<AbstractSyntaxTree>, t: int, s: int) -> bool {
    let ds = trees[t].compilation_unit.declarations@;
    &&& forall|i: int| 0 <= i < ds.len() ==> declaration_clean(env, trees, t, #[trigger] ds[i], s)
    &&& forall|i1: int, i2: int|
        0 <= i1 < i2 < ds.len() && decl_name(trees, t, #[trigger] ds[i1]) is Some ==> decl_name(trees, t, ds[i1]) != decl_name(
            trees,
            t,
            #[trigger] ds[i2],
        )
    &&& forall|i1: int, i2: int|
        0 <= i1 < i2 < ds.len() && decl_body(trees, t, #[trigger] ds[i1]) is Some ==> decl_body(trees, t, ds[i1]) != decl_body(
            trees,
            t,
            #[trigger] ds[i2],
        )
}

/// The second environment is the first where only the declarations of scope `s` under
/// the names that tree `t` declares, and the scopes of the bodies of its structs, may
/// differ.
pub open spec fn tree_changed_only(e1: &Environment, e2: &Environment, trees: Seq<AbstractSyntaxTree>, t: int, s: int) -> bool {
    let ds = trees[t].compilation_unit.declarations@;
    &&& e2.scopes@.len() == e1.scopes@.len()
    &&& forall|j: int|
        0 <= j < e1.scopes@.len() && j != s && (forall|i: int| 0 <= i < ds.len() ==> decl_body(trees, t, #[trigger] ds[i]) != Some(j))
            ==> #[trigger] e2.scopes@[j] == e1.scopes@[j]
    &&& forall|k: Seq<u8>|
        (forall|i: int| 0 <= i < ds.len() ==> decl_name(trees, t, #[trigger] ds[i]) != Some(k))
            ==> #[trigger] e2.scopes@[s].name_spaces.declared.get_spec(k) == e1.scopes@[s].name_spaces.declared.get_spec(k)
}

/// A clean declaration stays clean in an environment that keeps its name free and its
/// body's scope as it was.
proof fn lemma_clean_transfer(e1: &Environment, e2: &Environment, trees: Seq<AbstractSyntaxTree>, t: int, d: Declaration, s: int)
    requires
        declaration_clean(e1, trees, t, d, s),
        e2.scopes@.len() == e1.scopes@.len(),
        0 <= s < e1.scopes@.len(),
        decl_name(trees, t, d) matches Some(nm) ==> e2.scopes@[s].name_spaces.declared.get_spec(nm)
            == e1.scopes@[s].name_spaces.declared.get_spec(nm),
        decl_body(trees, t, d) matches Some(b) ==> e2.scopes@[b] == e1.scopes@[b],
    ensures
        declaration_clean(e2, trees, t, d, s),
{
}

/// A tree that declares cleanly in scope `s` still does in an environment that keeps the
/// scope `s` and the scopes of its structs' bodies as they were.
proof fn lemma_tree_clean_transfer(e1: &Environment, e2: &Environment, trees: Seq<AbstractSyntaxTree>, t: int, s: int)
    requires
        tree_declares_cleanly(e1, trees, t, s),
        e2.scopes@.len() == e1.scopes@.len(),
        0 <= s < e1.scopes@.len(),
        e2.scopes@[s] == e1.scopes@[s],
        forall|i: int|
            0 <= i < trees[t].compilation_unit.declarations@.len() ==> (decl_body(
                trees,
                t,
                #[trigger] trees[t].compilation_unit.declarations@[i],
            ) matches Some(b) ==> e2.scopes@[b] == e1.scopes@[b]),
    ensures
        tree_declares_cleanly(e2, trees, t, s),
{
    let ds = trees[t].compilation_unit.declarations@;
    assert forall|i: int| 0 <= i < ds.len() implies declaration_clean(e2, trees, t, #[trigger] ds[i], s) by {
        lemma_clean_transfer(e1, e2, trees, t, ds[i], s);
    }
}

/// Whether declaring every tree that has a module path in the scope of its module meets
/// no error: each module exists, each tree declares cleanly there, no two trees share a
/// module, and no scope of a struct body of one tree is the module or a body scope of
/// another tree.
pub open spec fn trees_declare_cleanly(env: &Environment, trees: Seq<AbstractSyntaxTree>, paths: Seq<Vec<Ident>>) -> bool {
    &&& forall|t: int|
        0 <= t < paired_len(trees, paths) ==> (#[trigger] module_at(env.scopes@, GLOBAL_SCOPE, path_view(paths[t]@))) is Some
            && module_at(env.scopes@, GLOBAL_SCOPE, path_view(paths[t]@))->0 < env.scopes@.len()
            && tree_declares_cleanly(env, trees, t, module_at(env.scopes@, GLOBAL_SCOPE, path_view(paths[t]@))->0 as int)
    &&& forall|t1: int, t2: int|
        0 <= t1 < paired_len(trees, paths) && 0 <= t2 < paired_len(trees, paths) && t1 != t2 ==> #[trigger] module_at(
            env.scopes@,
            GLOBAL_SCOPE,
            path_view(paths[t1]@),
        ) != #[trigger] module_at(env.scopes@, GLOBAL_SCOPE, path_view(paths[t2]@))
    &&& forall|t1: int, t2: int, i: int|
        0 <= t1 < paired_len(trees, paths) && 0 <= t2 < paired_len(trees, paths) && t1 != t2 && 0 <= i
            < trees[t1].compilation_unit.declarations@.len() && (decl_body(
            trees,
            t1,
            #[trigger] trees[t1].compilation_unit.declarations@[i],
        ) is Some) ==> {
            let b = decl_body(trees, t1, trees[t1].compilation_unit.declarations@[i])->0;
            &&& Some(b as usize) != #[trigger] module_at(env.scopes@, GLOBAL_SCOPE, path_view(paths[t2]@))
            &&& forall|i2: int|
                0 <= i2 < trees[t2].compilation_unit.declarations@.len() ==> decl_body(
                    trees,
                    t2,
                    #[trigger] trees[t2].compilation_unit.declarations@[i2],
                ) != Some(b)
        }
}

/// From tree `from` on, the scope of each tree's module and the scopes of its structs'
/// bodies are as in the first environment, which still has as many scopes.
pub open spec fn later_untouched(
    e0: &Environment,
    e: &Environment,
    trees: Seq<AbstractSyntaxTree>,
    paths: Seq<Vec<Ident>>,
    from: int,
) -> bool {
    &&& e.scopes@.len() == e0.scopes@.len()
    &&& forall|u: int|
        #![trigger trees[u]]
        from <= u < paired_len(trees, paths) ==> {
            let mu = module_at(e0.scopes@, GLOBAL_SCOPE, path_view(paths[u]@))->0 as int;
            &&& e.scopes@[mu] == e0.scopes@[mu]
            &&& forall|i: int|
                0 <= i < trees[u].compilation_unit.declarations@.len() ==> (decl_body(
                    trees,
                    u,
                    #[trigger] trees[u].compilation_unit.declarations@[i],
                ) matches Some(b) ==> e.scopes@[b] == e0.scopes@[b])
        }
}

/// Declaring tree `t` in its own module leaves the modules and body scopes of the trees
/// after it untouched.
proof fn lemma_later_untouched(
    e0: &Environment,
    before: &Environment,
    after: &Environment,
    trees: Seq<AbstractSyntaxTree>,
    paths: Seq<Vec<Ident>>,
    t: int,
)
    requires
        trees_declare_cleanly(e0, trees, paths),
        0 <= t < paired_len(trees, paths),
        later_untouched(e0, before, trees, paths, t),
        tree_changed_only(before, after, trees, t, module_at(e0.scopes@, GLOBAL_SCOPE, path_view(paths[t]@))->0 as int),
    ensures
        later_untouched(e0, after, trees, paths, t + 1),
{
    let dt = trees[t].compilation_unit.declarations@;
    let mt_opt = module_at(e0.scopes@, GLOBAL_SCOPE, path_view(paths[t]@));
    assert forall|u: int|
        #![trigger trees[u]]
        t + 1 <= u < paired_len(trees, paths) implies {
        let mu = module_at(e0.scopes@, GLOBAL_SCOPE, path_view(paths[u]@))->0 as int;
        &&& after.scopes@[mu] == e0.scopes@[mu]
        &&& forall|i: int|
            0 <= i < trees[u].compilation_unit.declarations@.len() ==> (decl_body(
                trees,
                u,
                #[trigger] trees[u].compilation_unit.declarations@[i],
            ) matches Some(b) ==> after.scopes@[b] == e0.scopes@[b])
    } by {
        let mu_opt = module_at(e0.scopes@, GLOBAL_SCOPE, path_view(paths[u]@));
        assert(mu_opt is Some);
        assert(mt_opt is Some);
        assert(mu_opt != mt_opt);
        let mu = mu_opt->0 as int;
        assert forall|i: int| 0 <= i < dt.len() implies decl_body(trees, t, #[trigger] dt[i]) != Some(mu) by {
            if decl_body(trees, t, dt[i]) is Some {
                assert(Some(decl_body(trees, t, dt[i])->0 as usize) != mu_opt);
            }
        }
        assert(trees[u] == trees[u]);
        assert(before.scopes@[mu] == e0.scopes@[mu]);
        assert(after.scopes@[mu] == before.scopes@[mu]);
        let du = trees[u].compilation_unit.declarations@;
        assert forall|i: int| 0 <= i < du.len() implies (decl_body(trees, u, #[trigger] du[i]) matches Some(b) ==> after.scopes@[b]
            == e0.scopes@[b]) by {
            if decl_body(trees, u, du[i]) is Some {
                let b = decl_body(trees, u, du[i])->0;
                assert(Some(b as usize) != mt_opt);
                assert(forall|i2: int| 0 <= i2 < dt.len() ==> decl_body(trees, t, #[trigger] dt[i2]) != Some(b));
                assert(before.scopes@[b] == e0.scopes@[b]);
                assert(after.scopes@[b] == before.scopes@[b]);
            }
        }
    }
}

/// Whether declaring struct `index` of tree `t` in scope `s` meets no error: its name is
/// free there, the default values of its fields walk freely, and its body, if any, lies in
/// a scope of its own whose attributes are constants of the tree with values that walk
/// freely and with names that are free there, not `self`, and all different.
pub open spec fn struct_declares_cleanly(env: &Environment, trees: Seq<AbstractSyntaxTree>, t: int, index: int, s: int) -> bool {
    let n = env.scopes@.len();
    let cs = trees[t].constants@;
    let d = trees[t].structs@[index];
    &&& 0 <= index < trees[t].structs@.len()
    &&& !name_taken(env, s, d.name@)
    &&& forall|j: int|
        0 <= j < d.fields@.len() ==> ((#[trigger] d.fields@[j]).default_value matches Some(v) ==> walks_freely(
            v,
            MAX_NESTING as nat,
            n,
        ))
    &&& d.body matches Some(b) ==> {
        &&& b.scope < n
        &&& b.scope != s
        &&& forall|k: int|
            0 <= k < b.attributes@.len() ==> {
                let c = #[trigger] b.attributes@[k];
                &&& c < cs.len()
                &&& cs[c as int].name@ != self_word()
                &&& !name_taken(env, b.scope as int, cs[c as int].name@)
                &&& walks_freely(cs[c as int].value, MAX_NESTING as nat, n)
            }
        &&& forall|k1: int, k2: int|
            0 <= k1 < k2 < b.attributes@.len() ==> cs[#[trigger] b.attributes@[k1] as int].name@
                != cs[#[trigger] b.attributes@[k2] as int].name@
    }
}

/// The expression a parameter supplies.
pub open spec fn parameter_expression(p: Parameter) -> Expression {
    match p {
        Parameter::Plain(v) => v,
        Parameter::Labelled { content, .. } => content,
    }
}

/// Whether scope `s` declares something under the name already.
pub open spec fn name_taken(env: &Environment, s: int, name: Seq<u8>) -> bool {
    env.scopes@[s].name_spaces.declared.get_spec(name) is Some
}

/// Whether every declaration of the tree is a `use`.
pub open spec fn imports_only(tree: AbstractSyntaxTree) -> bool {
    forall|j: int|
        0 <= j < tree.compilation_unit.declarations@.len() ==> #[trigger] tree.compilation_unit.declarations@[j] is Import
}

/// The number of trees that have a module path.
pub open spec fn paired_len(trees: Seq<AbstractSyntaxTree>, paths: Seq<Vec<Ident>>) -> int {
    if trees.len() < paths.len() {
        trees.len() as int
    } else {
        paths.len() as int
    }
}

/// Whether each tree that has a module path declares nothing but imports, and each such
/// path names a module of the environment.
pub open spec fn declares_nothing(env: &Environment, trees: Seq<AbstractSyntaxTree>, paths: Seq<Vec<Ident>>) -> bool {
    forall|t: int|
        0 <= t < paired_len(trees, paths) ==> imports_only(#[trigger] trees[t])
            && module_at(env.scopes@, GLOBAL_SCOPE, path_view(paths[t]@)) is Some
}

/// Adds the declarations of the syntax trees to the environment.
pub struct DeclarationAdder;

impl DeclarationAdder {
    /// Declares everything the trees declare and returns the names they use: the tree at
    /// index `i` belongs to the module `module_paths[i]`. Fails where a scope declares a name
    /// twice. Once it succeeds, each constant, struct and trait at the top of a tree stands,
    /// under its name, in the scope of the module of the tree.
    pub fn add_from(
        env: &mut Environment,
        syntax_trees: &Vec<AbstractSyntaxTree>,
        module_paths: &[Vec<Ident>],
    ) -> (res: Result<UnresolvedNames, EnvError>)
        requires
            old(env).wf(),
        ensures
            only_declarations_changed(old(env), final(env)),
            res is Ok ==> forall|t: int|
                0 <= t < syntax_trees@.len() && t < module_paths@.len() ==> #[trigger] tree_declared(
                    final(env),
                    syntax_trees@,
                    module_paths@,
                    t,
                ),
            res matches Ok(names) ==> collected(&names) == trees_names(
                syntax_trees@,
                if syntax_trees@.len() < module_paths@.len() {
                    syntax_trees@.len() as int
                } else {
                    module_paths@.len() as int
                },
            ),
            declares_nothing(old(env), syntax_trees@, module_paths@) ==> res is Ok && *final(env) == *old(env),
            trees_declare_cleanly(old(env), syntax_trees@, module_paths@) ==> res is Ok,
            0 < paired_len(syntax_trees@, module_paths@)
                && module_at(old(env).scopes@, GLOBAL_SCOPE, path_view(module_paths@[0]@)) is None
                ==> (res matches Err(EnvError::ModuleNotFound(_))),
    {
        let mut names = UnresolvedNames { type_names: Vec::new(), expression_names: Vec::new() };
        proof {
            assert(collected(&names).0 =~= Seq::empty());
            assert(collected(&names).1 =~= Seq::empty());
        }
        let mut tree: usize = 0;
        while tree < syntax_trees.len() && tree < module_paths.len()
            invariant
                only_declarations_changed(old(env), env),
                forall|t: int|
                    0 <= t < tree && t < syntax_trees@.len() && t < module_paths@.len() ==> #[trigger] tree_declared(
                        env,
                        syntax_trees@,
                        module_paths@,
                        t,
                    ),
                tree <= syntax_trees@.len(),
                tree <= module_paths@.len(),
                collected(&names) == trees_names(syntax_trees@, tree as int),
                declares_nothing(old(env), syntax_trees@, module_paths@) ==> *env == *old(env),
                tree == 0 ==> *env == *old(env),
                tree > 0 ==> module_at(old(env).scopes@, GLOBAL_SCOPE, path_view(module_paths@[0]@)) is Some,
                trees_declare_cleanly(old(env), syntax_trees@, module_paths@) ==> later_untouched(
                    old(env),
                    env,
                    syntax_trees@,
                    module_paths@,
                    tree as int,
                ),
            decreases syntax_trees@.len() - tree,
        {
            let ghost hyp = trees_declare_cleanly(old(env), syntax_trees@, module_paths@);
            proof {
                if hyp {
                    let mt = module_at(old(env).scopes@, GLOBAL_SCOPE, path_view(module_paths@[tree as int]@));
                    assert(mt is Some);
                    assert(module_at(old(env).scopes@, GLOBAL_SCOPE, path_view(module_paths@[tree as int]@)) is Some
                        && tree_declares_cleanly(old(env), syntax_trees@, tree as int, mt->0 as int));
                    lemma_module_at_kept(old(env), env, path_view(module_paths@[tree as int]@));
                    assert(syntax_trees@[tree as int] == syntax_trees@[tree as int]);
                    lemma_tree_clean_transfer(old(env), env, syntax_trees@, tree as int, mt->0 as int);
                }
                if declares_nothing(old(env), syntax_trees@, module_paths@) {
                    assert(imports_only(syntax_trees@[tree as int]));
                    assert(module_at(env.scopes@, GLOBAL_SCOPE, path_view(module_paths@[tree as int]@)) is Some);
                }
            }
            let path = module_paths[tree].as_slice();
            assert(path@ == module_paths@[tree as int]@);
            let module_scope = match env.find_module(path) {
                Some(s) => s,
                None => {
                    return Err(EnvError::ModuleNotFound(join_path(module_paths[tree].as_slice())));
                },
            };
            let ghost before = *env;
            match Self::add_tree(env, syntax_trees, tree, module_scope, &mut names) {
                Ok(()) => {},
                Err(e) => {
                    return Err(e);
                },
            }
            proof {
                if hyp {
                    lemma_later_untouched(old(env), &before, env, syntax_trees@, module_paths@, tree as int);
                }
                lemma_only_declarations_trans(old(env), &before, env);
                lemma_module_at_kept(&before, env, path_view(module_paths@[tree as int]@));
                assert forall|t: int|
                    0 <= t < tree + 1 && t < syntax_trees@.len() && t < module_paths@.len() implies #[trigger] tree_declared(
                        env,
                        syntax_trees@,
                        module_paths@,
                        t,
                    ) by {
                    if t < tree {
                        lemma_tree_declared_kept(&before, env, syntax_trees@, module_paths@, t);
                    }
                }
            }
            tree = tree + 1;
        }
        Ok(names)
    }

    /// Declares the declarations at the top of one tree in the scope of its module.
    fn add_tree(
        env: &mut Environment,
        syntax_trees: &Vec<AbstractSyntaxTree>,
        tree: usize,
        module_scope: ScopeId,
        names: &mut UnresolvedNames,
    ) -> (res: Result<(), EnvError>)
        requires
            old(env).wf(),
            module_scope < old(env).scopes@.len(),
            tree < syntax_trees@.len(),
        ensures
            only_declarations_changed(old(env), final(env)),
            res is Ok ==> declarations_kept(old(env), final(env)) && forall|j: int|
                0 <= j < syntax_trees@[tree as int].compilation_unit.declarations@.len() ==> declared_in_scope(
                    final(env),
                    module_scope as int,
                    syntax_trees@,
                    tree as int,
                    #[trigger] syntax_trees@[tree as int].compilation_unit.declarations@[j],
                ),
            res is Ok ==> collected(final(names)) == then(collected(old(names)), tree_names(syntax_trees@, tree as int)),
            imports_only(syntax_trees@[tree as int]) ==> res is Ok && *final(env) == *old(env),
            tree_declares_cleanly(old(env), syntax_trees@, tree as int, module_scope as int) ==> res is Ok && tree_changed_only(
                old(env),
                final(env),
                syntax_trees@,
                tree as int,
                module_scope as int,
            ),
    {
        let declarations = &syntax_trees[tree].compilation_unit.declarations;
        let ghost start = collected(names);
        proof {
            assert(declarations@.take(0) =~= Seq::<Declaration>::empty());
            lemma_then_none(start);
        }
        let mut i: usize = 0;
        while i < declarations.len()
            invariant
                only_declarations_changed(old(env), env),
                declarations_kept(old(env), env),
                module_scope < env.scopes@.len(),
                tree < syntax_trees@.len(),
                declarations == syntax_trees@[tree as int].compilation_unit.declarations,
                forall|j: int|
                    0 <= j < i ==> declared_in_scope(env, module_scope as int, syntax_trees@, tree as int, #[trigger] declarations@[j]),
                i <= declarations@.len(),
                collected(names) == then(start, declarations_names(syntax_trees@, tree as int, declarations@.take(i as int))),
                imports_only(syntax_trees@[tree as int]) ==> *env == *old(env),
                tree_declares_cleanly(old(env), syntax_trees@, tree as int, module_scope as int) ==> {
                    &&& env.scopes@.len() == old(env).scopes@.len()
                    &&& forall|i2: int| i <= i2 < declarations@.len() ==> declaration_clean(
                        env,
                        syntax_trees@,
                        tree as int,
                        #[trigger] declarations@[i2],
                        module_scope as int,
                    )
                    &&& forall|j: int|
                        0 <= j < old(env).scopes@.len() && j != module_scope && (forall|i3: int|
                            0 <= i3 < i ==> decl_body(syntax_trees@, tree as int, #[trigger] declarations@[i3]) != Some(j))
                            ==> #[trigger] env.scopes@[j] == old(env).scopes@[j]
                    &&& forall|k: Seq<u8>|
                        (forall|i3: int| 0 <= i3 < i ==> decl_name(syntax_trees@, tree as int, #[trigger] declarations@[i3]) != Some(k))
                            ==> #[trigger] env.scopes@[module_scope as int].name_spaces.declared.get_spec(k)
                            == old(env).scopes@[module_scope as int].name_spaces.declared.get_spec(k)
                },
            decreases declarations@.len() - i,
        {
            assert(imports_only(syntax_trees@[tree as int]) ==> declarations@[i as int] is Import);
            let ghost before = *env;
            Self::add_declaration(env, syntax_trees, tree, &declarations[i], module_scope, names)?;
            proof {
                if tree_declares_cleanly(old(env), syntax_trees@, tree as int, module_scope as int) {
                    let di = declarations@[i as int];
                    assert forall|i2: int| i + 1 <= i2 < declarations@.len() implies declaration_clean(
                        env,
                        syntax_trees@,
                        tree as int,
                        #[trigger] declarations@[i2],
                        module_scope as int,
                    ) by {
                        let d2 = declarations@[i2];
                        assert(declaration_clean(&before, syntax_trees@, tree as int, d2, module_scope as int));
                        if decl_body(syntax_trees@, tree as int, d2) is Some {
                            assert(decl_body(syntax_trees@, tree as int, d2) != Some(module_scope as int));
                        }
                        lemma_clean_transfer(&before, env, syntax_trees@, tree as int, d2, module_scope as int);
                    }
                }
            }
            proof {
                assert(declarations@.take(i + 1).drop_last() =~= declarations@.take(i as int));
                lemma_then_assoc(
                    start,
                    declarations_names(syntax_trees@, tree as int, declarations@.take(i as int)),
                    declaration_names(syntax_trees@, tree as int, declarations@[i as int]),
                );
                lemma_only_declarations_trans(old(env), &before, env);
                lemma_kept_trans(old(env), &before, env);
                assert forall|j: int| 0 <= j < i + 1 implies declared_in_scope(
                    env,
                    module_scope as int,
                    syntax_trees@,
                    tree as int,
                    #[trigger] declarations@[j],
                ) by {
                    if j < i {
                        lemma_kept_declared(&before, env, module_scope as int, syntax_trees@, tree as int, declarations@[j]);
                    }
                }
            }
            i = i + 1;
        }
        proof {
            assert(declarations@.take(declarations@.len() as int) =~= declarations@);
        }
        Ok(())
    }

    fn add_declaration(
        env: &mut Environment,
        syntax_trees: &Vec<AbstractSyntaxTree>,
        tree: usize,
        declaration: &Declaration,
        scope_id: ScopeId,
        seen_names: &mut UnresolvedNames,
    ) -> (res: Result<(), EnvError>)
        requires
            old(env).wf(),
            scope_id < old(env).scopes@.len(),
            tree < syntax_trees@.len(),
        ensures
            only_declarations_changed(old(env), final(env)),
            res is Ok ==> declarations_kept(old(env), final(env))
                && declared_in_scope(final(env), scope_id as int, syntax_trees@, tree as int, *declaration),
            res is Ok ==> collected(final(seen_names)) == then(
                collected(old(seen_names)),
                declaration_names(syntax_trees@, tree as int, *declaration),
            ),
            *declaration is Import ==> res is Ok && *final(env) == *old(env),
            *declaration matches Declaration::Constant(c) && c >= syntax_trees@[tree as int].constants@.len()
                ==> res == Err::<(), EnvError>(EnvError::InvalidState),
            *declaration matches Declaration::Struct(c) && c >= syntax_trees@[tree as int].structs@.len()
                ==> res == Err::<(), EnvError>(EnvError::InvalidState),
            *declaration matches Declaration::Trait(c) ==> (res is Ok <==> c < syntax_trees@[tree as int].traits@.len()
                && !name_taken(old(env), scope_id as int, syntax_trees@[tree as int].traits@[c as int].name@)),
            declaration_clean(old(env), syntax_trees@, tree as int, *declaration, scope_id as int) ==> res is Ok
                && changed_only(
                old(env),
                final(env),
                scope_id as int,
                decl_name(syntax_trees@, tree as int, *declaration),
                decl_body(syntax_trees@, tree as int, *declaration),
            ),
    {
        match declaration {
            Declaration::Constant(c) => Self::add_constant(env, syntax_trees, tree, *c, scope_id, seen_names, MAX_NESTING),
            Declaration::Struct(s) => Self::add_struct_declaration(env, syntax_trees, tree, *s, scope_id, seen_names),
            Declaration::Trait(t) => Self::add_trait_declaration(env, syntax_trees, tree, *t, scope_id, seen_names),
            Declaration::Import(_) => {
                proof {
                    lemma_then_none(collected(seen_names));
                }
                Ok(())
            },
        }
    }

    /// Declares constant `index` of tree `tree` in the scope and collects the names of its
    /// value.
    fn add_constant(
        env: &mut Environment,
        syntax_trees: &Vec<AbstractSyntaxTree>,
        tree: usize,
        index: usize,
        scope_id: ScopeId,
        seen_names: &mut UnresolvedNames,
        fuel: usize,
    ) -> (res: Result<(), EnvError>)
        requires
            old(env).wf(),
            scope_id < old(env).scopes@.len(),
            tree < syntax_trees@.len(),
        ensures
            only_declarations_changed(old(env), final(env)),
            res is Ok ==> declarations_kept(old(env), final(env)) && declared_in_scope(
                final(env),
                scope_id as int,
                syntax_trees@,
                tree as int,
                Declaration::Constant(index),
            ),
            res is Ok ==> collected(final(seen_names)) == then(
                collected(old(seen_names)),
                constant_names(syntax_trees@, tree as int, index as int, fuel as nat),
            ),
            index >= syntax_trees@[tree as int].constants@.len() ==> res == Err::<(), EnvError>(EnvError::InvalidState),
            index < syntax_trees@[tree as int].constants@.len() ==> ({
                let c = syntax_trees@[tree as int].constants@[index as int];
                &&& name_taken(old(env), scope_id as int, c.name@)
                    ==> (res matches Err(EnvError::DuplicateDeclaration(n)) && n@ == c.name@)
                &&& !name_taken(old(env), scope_id as int, c.name@) && fuel > 0 && is_leaf(c.value) ==> res is Ok
                &&& !name_taken(old(env), scope_id as int, c.name@) && walks_freely(c.value, fuel as nat, old(env).scopes@.len())
                    ==> res is Ok && declares_only(old(env), final(env), scope_id as int, c.name@)
            }),
        decreases fuel, 3nat,
    {
        if index >= syntax_trees[tree].constants.len() {
            return Err(EnvError::InvalidState);
        }
        let constant = &syntax_trees[tree].constants[index];
        let element = DeclaredElement::Constant(DeclId { tree, index });
        let ghost e0 = *env;
        let duplicate = env.declare(scope_id, copy_bytes(constant.name.as_slice()), element);
        proof {
            lemma_declare_only_declarations(&e0, env, scope_id as int, constant.name@);
        }
        if duplicate.is_some() {
            return Err(EnvError::DuplicateDeclaration(copy_bytes(constant.name.as_slice())));
        }
        proof {
            lemma_declare_kept(&e0, env, scope_id as int, constant.name@);
        }
        let ghost e1 = *env;
        let r = Self::add_expression(env, syntax_trees, tree, &constant.value, scope_id, seen_names, fuel);
        proof {
            lemma_only_declarations_trans(&e0, &e1, env);
            if r is Ok {
                lemma_kept_trans(&e0, &e1, env);
                assert(e1.scopes@[scope_id as int].name_spaces.declared.get_spec(constant.name@) == Some(element));
            }
        }
        r
    }

    /// Collects the names of an expression and declares the constants of its blocks.
    fn add_expression(
        env: &mut Environment,
        syntax_trees: &Vec<AbstractSyntaxTree>,
        tree: usize,
        expression: &Expression,
        scope_id: ScopeId,
        seen_names: &mut UnresolvedNames,
        fuel: usize,
    ) -> (res: Result<(), EnvError>)
        requires
            old(env).wf(),
            scope_id < old(env).scopes@.len(),
            tree < syntax_trees@.len(),
        ensures
            only_declarations_changed(old(env), final(env)),
            res is Ok ==> declarations_kept(old(env), final(env)),
            res is Ok ==> collected(final(seen_names)) == then(
                collected(old(seen_names)),
                expression_names(syntax_trees@, tree as int, *expression, fuel as nat),
            ),
            fuel == 0 ==> res == Err::<(), EnvError>(EnvError::NestingTooDeep),
            fuel > 0 && is_leaf(*expression) ==> res is Ok && *final(env) == *old(env),
            fuel > 0 && (*expression matches Expression::Block(b) && b.statements@.len() == 0)
                ==> res is Ok && *final(env) == *old(env),
            walks_freely(*expression, fuel as nat, old(env).scopes@.len()) ==> res is Ok && *final(env) == *old(env),
            block_declares_freely(syntax_trees@, tree as int, *expression, fuel as nat, old(env)) ==> res is Ok,
            res is Ok ==> (*expression matches Expression::Block(b) ==> forall|i: int|
                0 <= i < b.statements@.len() ==> (#[trigger] b.statements@[i] matches Statement::ConstantDeclaration(c)
                    ==> declared_in_scope(final(env), b.scope as int, syntax_trees@, tree as int, Declaration::Constant(c)))),
        decreases fuel, 1nat,
    {
        if fuel == 0 {
            return Err(EnvError::NestingTooDeep);
        }
        let f = fuel - 1;
        let ghost start = collected(seen_names);
        let ghost trees = syntax_trees@;
        let ghost t = tree as int;
        match expression {
            Expression::ConstUse(name) => {
                seen_names.expression_names.push(name.duplicate());
                proof {
                    assert(collected(seen_names).0 =~= start.0 + Seq::empty());
                    assert(collected(seen_names).1 =~= start.1 + seq![name.spec_key()]);
                }
                Ok(())
            },
            Expression::Literal { .. } | Expression::SelfRef(_) | Expression::Void => {
                proof {
                    lemma_then_none(start);
                }
                Ok(())
            },
            Expression::StructInit { name, parameters, init_content } => {
                let ghost key = (seq![name.spec_key()], Seq::<(Seq<Seq<u8>>, ScopeId)>::empty());
                seen_names.type_names.push(name.duplicate());
                let ghost head = then(start, key);
                proof {
                    assert(collected(seen_names).0 =~= start.0 + key.0);
                    assert(collected(seen_names).1 =~= start.1 + key.1);
                    assert(parameters@.take(0) =~= Seq::<Parameter>::empty());
                    lemma_then_none(head);
                }
                let mut i: usize = 0;
                while i < parameters.len()
                    invariant
                        only_declarations_changed(old(env), env),
                        declarations_kept(old(env), env),
                        scope_id < env.scopes@.len(),
                        tree < syntax_trees@.len(),
                        f + 1 == fuel,
                        !is_leaf(*expression) && !(*expression matches Expression::Block(b) && b.statements@.len() == 0),
                        *expression == (Expression::StructInit { name: *name, parameters: *parameters, init_content: *init_content }),
                        walks_freely(*expression, fuel as nat, old(env).scopes@.len()) ==> *env == *old(env),
                        i <= parameters@.len(),
                        trees == syntax_trees@,
                        t == tree as int,
                        collected(seen_names) == then(head, parameters_names(trees, t, parameters@.take(i as int), f as nat)),
                    decreases parameters@.len() - i,
                {
                    let ghost before_env = *env;
                    Self::add_parameter(env, syntax_trees, tree, &parameters[i], scope_id, seen_names, f)?;
                    proof {
                        lemma_kept_trans(old(env), &before_env, env);
                        assert(parameters@.take(i + 1).drop_last() =~= parameters@.take(i as int));
                        lemma_then_assoc(
                            head,
                            parameters_names(trees, t, parameters@.take(i as int), f as nat),
                            parameter_names(trees, t, parameters@[i as int], f as nat),
                        );
                    }
                    i = i + 1;
                }
                proof {
                    assert(parameters@.take(parameters@.len() as int) =~= parameters@);
                    lemma_then_assoc(start, key, parameters_names(trees, t, parameters@, f as nat));
                }
                let ghost middle = then(head, parameters_names(trees, t, parameters@, f as nat));
                match init_content {
                    Some(content) => {
                        proof {
                            assert(content.expressions@.take(0) =~= Seq::<Expression>::empty());
                            lemma_then_none(middle);
                        }
                        let mut j: usize = 0;
                        while j < content.expressions.len()
                            invariant
                                only_declarations_changed(old(env), env),
                                declarations_kept(old(env), env),
                                scope_id < env.scopes@.len(),
                                tree < syntax_trees@.len(),
                                f + 1 == fuel,
                                !is_leaf(*expression) && !(*expression matches Expression::Block(b) && b.statements@.len() == 0),
                                *expression == (Expression::StructInit { name: *name, parameters: *parameters, init_content: *init_content }),
                                *init_content == Some(*content),
                                walks_freely(*expression, fuel as nat, old(env).scopes@.len()) ==> *env == *old(env),
                                j <= content.expressions@.len(),
                                trees == syntax_trees@,
                                t == tree as int,
                                collected(seen_names) == then(
                                    middle,
                                    expressions_names(trees, t, content.expressions@.take(j as int), f as nat),
                                ),
                            decreases content.expressions@.len() - j,
                        {
                            let ghost before_env = *env;
                            proof {
                                if walks_freely(*expression, fuel as nat, old(env).scopes@.len()) {
                                    assert(*expression matches Expression::StructInit { init_content: x, .. } && x == Some(*content));
                                    assert(match *init_content {
                                        Some(c) => forall|i: int|
                                            0 <= i < c.expressions@.len() ==> walks_freely(
                                                #[trigger] c.expressions@[i],
                                                (fuel - 1) as nat,
                                                old(env).scopes@.len(),
                                            ),
                                        None => true,
                                    });
                                    assert(forall|k: int| 0 <= k < content.expressions@.len() ==> walks_freely(
                                        #[trigger] content.expressions@[k],
                                        (fuel - 1) as nat,
                                        old(env).scopes@.len(),
                                    ));
                                    assert(f as nat == (fuel - 1) as nat);
                                    assert(walks_freely(content.expressions@[j as int], f as nat, old(env).scopes@.len()));
                                }
                            }
                            Self::add_expression(env, syntax_trees, tree, &content.expressions[j], scope_id, seen_names, f)?;
                            proof {
                                lemma_kept_trans(old(env), &before_env, env);
                                assert(content.expressions@.take(j + 1).drop_last() =~= content.expressions@.take(j as int));
                                lemma_then_assoc(
                                    middle,
                                    expressions_names(trees, t, content.expressions@.take(j as int), f as nat),
                                    expression_names(trees, t, content.expressions@[j as int], f as nat),
                                );
                            }
                            j = j + 1;
                        }
                        proof {
                            assert(content.expressions@.take(content.expressions@.len() as int) =~= content.expressions@);
                            lemma_then_assoc(
                                start,
                                then(key, parameters_names(trees, t, parameters@, f as nat)),
                                expressions_names(trees, t, content.expressions@, f as nat),
                            );
                        }
                        Ok(())
                    },
                    None => {
                        proof {
                            lemma_then_none(then(key, parameters_names(trees, t, parameters@, f as nat)));
                        }
                        Ok(())
                    },
                }
            },
            Expression::ChainingMethodInvocation { receiver, accessors } => {
                Self::add_expression(env, syntax_trees, tree, receiver, scope_id, seen_names, f)?;
                let ghost head = then(start, expression_names(trees, t, **receiver, f as nat));
                proof {
                    assert(accessors@.take(0) =~= Seq::<Accessor>::empty());
                    lemma_then_none(head);
                }
                let mut i: usize = 0;
                while i < accessors.len()
                    invariant
                        only_declarations_changed(old(env), env),
                        declarations_kept(old(env), env),
                        scope_id < env.scopes@.len(),
                        tree < syntax_trees@.len(),
                        f + 1 == fuel,
                        !is_leaf(*expression) && !(*expression matches Expression::Block(b) && b.statements@.len() == 0),
                        *expression == (Expression::ChainingMethodInvocation { receiver: *receiver, accessors: *accessors }),
                        walks_freely(*expression, fuel as nat, old(env).scopes@.len()) ==> *env == *old(env),
                        i <= accessors@.len(),
                        trees == syntax_trees@,
                        t == tree as int,
                        collected(seen_names) == then(head, accessors_names(trees, t, accessors@.take(i as int), f as nat)),
                    decreases accessors@.len() - i,
                {
                    proof {
                        assert(accessors@.take(i + 1).drop_last() =~= accessors@.take(i as int));
                    }
                    match &accessors[i].value {
                        Some(v) => {
                            let ghost before_env = *env;
                            Self::add_expression(env, syntax_trees, tree, v, scope_id, seen_names, f)?;
                            proof {
                                lemma_kept_trans(old(env), &before_env, env);
                                lemma_then_assoc(
                                    head,
                                    accessors_names(trees, t, accessors@.take(i as int), f as nat),
                                    expression_names(trees, t, *v, f as nat),
                                );
                            }
                        },
                        None => {
                            proof {
                                lemma_then_none(accessors_names(trees, t, accessors@.take(i as int), f as nat));
                            }
                        },
                    }
                    i = i + 1;
                }
                proof {
                    assert(accessors@.take(accessors@.len() as int) =~= accessors@);
                    lemma_then_assoc(
                        start,
                        expression_names(trees, t, **receiver, f as nat),
                        accessors_names(trees, t, accessors@, f as nat),
                    );
                }
                Ok(())
            },
            Expression::Block(block) => {
                if block.statements.len() == 0 {
                    proof {
                        assert(statements_names(trees, t, block.statements@, f as nat) == no_names());
                        lemma_then_none(start);
                    }
                    return Ok(());
                }
                let body_scope_id = block.scope;
                if body_scope_id >= env.scopes.len() {
                    return Err(EnvError::InvalidState);
                }
                proof {
                    assert(block.statements@.take(0) =~= Seq::<Statement>::empty());
                    lemma_then_none(start);
                }
                let mut i: usize = 0;
                while i < block.statements.len()
                    invariant
                        only_declarations_changed(old(env), env),
                        declarations_kept(old(env), env),
                        body_scope_id < env.scopes@.len(),
                        tree < syntax_trees@.len(),
                        f + 1 == fuel,
                        !is_leaf(*expression) && !(*expression matches Expression::Block(b) && b.statements@.len() == 0),
                        *expression == Expression::Block(*block),
                        forall|j: int| 0 <= j < i ==> (#[trigger] block.statements@[j] matches Statement::ConstantDeclaration(c) ==> declared_in_scope(env, body_scope_id as int, trees, t, Declaration::Constant(c))),
                        walks_freely(*expression, fuel as nat, old(env).scopes@.len()) ==> *env == *old(env),
                        i <= block.statements@.len(),
                        trees == syntax_trees@,
                        t == tree as int,
                        collected(seen_names) == then(start, statements_names(trees, t, block.statements@.take(i as int), f as nat)),
                        block_declares_freely(trees, t, *expression, fuel as nat, old(env)) ==> env.scopes@.len() == old(env).scopes@.len()
                            && forall|j: int|
                            i <= j < block.statements@.len() ==> (#[trigger] block.statements@[j] matches Statement::ConstantDeclaration(c)
                                ==> !name_taken(env, body_scope_id as int, trees[t].constants@[c as int].name@)),
                    decreases block.statements@.len() - i,
                {
                    let ghost before_env = *env;
                    let ghost hyp = block_declares_freely(trees, t, *expression, fuel as nat, old(env));
                    proof {
                        if hyp {
                            assert(*expression matches Expression::Block(bb) && bb == *block);
                            assert(f as nat == (fuel - 1) as nat);
                            match block.statements@[i as int] {
                                Statement::Expression(x) => {
                                    assert(walks_freely(x, f as nat, env.scopes@.len()));
                                },
                                Statement::ConstantDeclaration(c) => {
                                    assert(!name_taken(env, body_scope_id as int, trees[t].constants@[c as int].name@));
                                },
                            }
                        }
                    }
                    Self::add_statement(env, syntax_trees, tree, &block.statements[i], body_scope_id, seen_names, f)?;
                    proof {
                        if hyp {
                            assert forall|j: int|
                                i + 1 <= j < block.statements@.len() implies (#[trigger] block.statements@[j] matches Statement::ConstantDeclaration(c)
                                    ==> !name_taken(env, body_scope_id as int, trees[t].constants@[c as int].name@)) by {
                                match block.statements@[j] {
                                    Statement::ConstantDeclaration(cj) => {
                                        assert(!name_taken(&before_env, body_scope_id as int, trees[t].constants@[cj as int].name@));
                                        match block.statements@[i as int] {
                                            Statement::ConstantDeclaration(ci) => {
                                                assert(block.statements@[i as int] is ConstantDeclaration);
                                                assert(trees[t].constants@[ci as int].name@ != trees[t].constants@[cj as int].name@);
                                            },
                                            Statement::Expression(_) => {},
                                        }
                                    },
                                    _ => {},
                                }
                            }
                        }
                    }
                    proof {
                        lemma_kept_trans(old(env), &before_env, env);
                        assert(block.statements@.take(i + 1).drop_last() =~= block.statements@.take(i as int));
                        lemma_then_assoc(
                            start,
                            statements_names(trees, t, block.statements@.take(i as int), f as nat),
                            statement_names(trees, t, block.statements@[i as int], f as nat),
                        );
                    }
                    i = i + 1;
                }
                proof {
                    assert(block.statements@.take(block.statements@.len() as int) =~= block.statements@);
                }
                Ok(())
            },
            Expression::FieldAccess { receiver, .. } => {
                Self::add_expression(env, syntax_trees, tree, receiver, scope_id, seen_names, f)
            },
            Expression::Collection(elements) => {
                proof {
                    assert(elements@.take(0) =~= Seq::<Expression>::empty());
                    lemma_then_none(start);
                }
                let mut i: usize = 0;
                while i < elements.len()
                    invariant
                        only_declarations_changed(old(env), env),
                        declarations_kept(old(env), env),
                        scope_id < env.scopes@.len(),
                        tree < syntax_trees@.len(),
                        f + 1 == fuel,
                        !is_leaf(*expression) && !(*expression matches Expression::Block(b) && b.statements@.len() == 0),
                        *expression == Expression::Collection(*elements),
                        walks_freely(*expression, fuel as nat, old(env).scopes@.len()) ==> *env == *old(env),
                        i <= elements@.len(),
                        trees == syntax_trees@,
                        t == tree as int,
                        collected(seen_names) == then(start, expressions_names(trees, t, elements@.take(i as int), f as nat)),
                    decreases elements@.len() - i,
                {
                    let ghost before_env = *env;
                    proof {
                        if walks_freely(*expression, fuel as nat, old(env).scopes@.len()) {
                            let n = old(env).scopes@.len();
                            assert(*expression matches Expression::Collection(x) && x == *elements);
                            assert(forall|k: int| 0 <= k < elements@.len() ==> walks_freely(#[trigger] elements@[k], (fuel - 1) as nat, n));
                            assert(0 <= i < elements@.len());
                            assert(f as nat == (fuel - 1) as nat);
                            assert(walks_freely(elements@[i as int], (fuel - 1) as nat, n));
                            assert(walks_freely(elements@[i as int], f as nat, old(env).scopes@.len()));
                        }
                    }
                    Self::add_expression(env, syntax_trees, tree, &elements[i], scope_id, seen_names, f)?;
                    proof {
                        lemma_kept_trans(old(env), &before_env, env);
                        assert(elements@.take(i + 1).drop_last() =~= elements@.take(i as int));
                        lemma_then_assoc(
                            start,
                            expressions_names(trees, t, elements@.take(i as int), f as nat),
                            expression_names(trees, t, elements@[i as int], f as nat),
                        );
                    }
                    i = i + 1;
                }
                proof {
                    assert(elements@.take(elements@.len() as int) =~= elements@);
                }
                Ok(())
            },
        }
    }

    fn add_parameter(
        env: &mut Environment,
        syntax_trees: &Vec<AbstractSyntaxTree>,
        tree: usize,
        parameter: &Parameter,
        scope_id: ScopeId,
        seen_names: &mut UnresolvedNames,
        fuel: usize,
    ) -> (res: Result<(), EnvError>)
        requires
            old(env).wf(),
            scope_id < old(env).scopes@.len(),
            tree < syntax_trees@.len(),
        ensures
            only_declarations_changed(old(env), final(env)),
            res is Ok ==> declarations_kept(old(env), final(env)),
            res is Ok ==> collected(final(seen_names)) == then(
                collected(old(seen_names)),
                parameter_names(syntax_trees@, tree as int, *parameter, fuel as nat),
            ),
            fuel == 0 ==> res == Err::<(), EnvError>(EnvError::NestingTooDeep),
            fuel > 0 && is_leaf(parameter_expression(*parameter)) ==> res is Ok && *final(env) == *old(env),
            walks_freely(parameter_expression(*parameter), fuel as nat, old(env).scopes@.len()) ==> res is Ok && *final(env)
                == *old(env),
        decreases fuel, 2nat,
    {
        Self::add_expression(env, syntax_trees, tree, parameter.expression(), scope_id, seen_names, fuel)
    }

    fn add_statement(
        env: &mut Environment,
        syntax_trees: &Vec<AbstractSyntaxTree>,
        tree: usize,
        statement: &Statement,
        scope_id: ScopeId,
        seen_names: &mut UnresolvedNames,
        fuel: usize,
    ) -> (res: Result<(), EnvError>)
        requires
            old(env).wf(),
            scope_id < old(env).scopes@.len(),
            tree < syntax_trees@.len(),
        ensures
            only_declarations_changed(old(env), final(env)),
            res is Ok ==> declarations_kept(old(env), final(env)),
            res is Ok ==> collected(final(seen_names)) == then(
                collected(old(seen_names)),
                statement_names(syntax_trees@, tree as int, *statement, fuel as nat),
            ),
            statement is Expression && fuel == 0 ==> res == Err::<(), EnvError>(EnvError::NestingTooDeep),
            *statement matches Statement::Expression(e) && fuel > 0 && is_leaf(e) ==> res is Ok && *final(env) == *old(env),
            *statement matches Statement::Expression(e) && walks_freely(e, fuel as nat, old(env).scopes@.len()) ==> res is Ok
                && *final(env) == *old(env),
            res is Ok ==> (*statement matches Statement::ConstantDeclaration(c) ==> declared_in_scope(
                final(env),
                scope_id as int,
                syntax_trees@,
                tree as int,
                Declaration::Constant(c),
            )),
            *statement matches Statement::ConstantDeclaration(c) && c >= syntax_trees@[tree as int].constants@.len()
                ==> res == Err::<(), EnvError>(EnvError::InvalidState),
            *statement matches Statement::ConstantDeclaration(c) ==> (c < syntax_trees@[tree as int].constants@.len() && !name_taken(
                old(env),
                scope_id as int,
                syntax_trees@[tree as int].constants@[c as int].name@,
            ) && walks_freely(syntax_trees@[tree as int].constants@[c as int].value, fuel as nat, old(env).scopes@.len())
                ==> res is Ok && declares_only(old(env), final(env), scope_id as int, syntax_trees@[tree as int].constants@[c as int].name@)),
        decreases fuel, 4nat,
    {
        match statement {
            Statement::Expression(e) => Self::add_expression(env, syntax_trees, tree, e, scope_id, seen_names, fuel),
            Statement::ConstantDeclaration(c) => Self::add_constant(env, syntax_trees, tree, *c, scope_id, seen_names, fuel),
        }
    }

    /// Declares struct `index` of tree `tree` in the scope, declares `self` as the struct in
    /// its body, and collects the names of its field types, default values and attributes.
    fn add_struct_declaration(
        env: &mut Environment,
        syntax_trees: &Vec<AbstractSyntaxTree>,
        tree: usize,
        index: usize,
        scope_id: ScopeId,
        seen_names: &mut UnresolvedNames,
    ) -> (res: Result<(), EnvError>)
        requires
            old(env).wf(),
            scope_id < old(env).scopes@.len(),
            tree < syntax_trees@.len(),
        ensures
            only_declarations_changed(old(env), final(env)),
            res is Ok ==> declarations_kept(old(env), final(env)) && declared_in_scope(
                final(env),
                scope_id as int,
                syntax_trees@,
                tree as int,
                Declaration::Struct(index),
            ),
            res is Ok ==> collected(final(seen_names)) == then(
                collected(old(seen_names)),
                struct_names(syntax_trees@, tree as int, index as int),
            ),
            index >= syntax_trees@[tree as int].structs@.len() ==> res == Err::<(), EnvError>(EnvError::InvalidState),
            index < syntax_trees@[tree as int].structs@.len() ==> ({
                let d = syntax_trees@[tree as int].structs@[index as int];
                &&& name_taken(old(env), scope_id as int, d.name@)
                    ==> (res matches Err(EnvError::DuplicateDeclaration(n)) && n@ == d.name@)
                &&& !name_taken(old(env), scope_id as int, d.name@) && d.body is None
                    && (forall|j: int| 0 <= j < d.fields@.len() ==> (#[trigger] d.fields@[j]).default_value is None)
                    ==> res is Ok
            }),
            struct_declares_cleanly(old(env), syntax_trees@, tree as int, index as int, scope_id as int) ==> res is Ok
                && changed_only(
                old(env),
                final(env),
                scope_id as int,
                decl_name(syntax_trees@, tree as int, Declaration::Struct(index)),
                decl_body(syntax_trees@, tree as int, Declaration::Struct(index)),
            ),
    {
        if index >= syntax_trees[tree].structs.len() {
            return Err(EnvError::InvalidState);
        }
        let declaration = &syntax_trees[tree].structs[index];
        let element = DeclaredElement::Struct(DeclId { tree, index });
        let ghost e0 = *env;
        let ghost start = collected(seen_names);
        let ghost trees = syntax_trees@;
        let ghost t = tree as int;
        let duplicate = env.declare(scope_id, copy_bytes(declaration.name.as_slice()), element);
        proof {
            lemma_declare_only_declarations(&e0, env, scope_id as int, declaration.name@);
        }
        if duplicate.is_some() {
            return Err(EnvError::DuplicateDeclaration(copy_bytes(declaration.name.as_slice())));
        }
        proof {
            lemma_declare_kept(&e0, env, scope_id as int, declaration.name@);
            assert(declaration.fields@.take(0) =~= Seq::<Field>::empty());
            lemma_then_none(start);
        }
        let ghost e1 = *env;
        let mut i: usize = 0;
        while i < declaration.fields.len()
            invariant
                only_declarations_changed(old(env), env),
                only_declarations_changed(&e1, env),
                declarations_kept(&e1, env),
                declarations_kept(old(env), &e1),
                e1.scopes@[scope_id as int].name_spaces.declared.get_spec(declaration.name@) == Some(element),
                e1.scopes@.len() == old(env).scopes@.len(),
                scope_id < env.scopes@.len(),
                tree < syntax_trees@.len(),
                i <= declaration.fields@.len(),
                trees == syntax_trees@,
                t == tree as int,
                collected(seen_names) == then(start, fields_names(trees, t, declaration.fields@.take(i as int))),
                index < syntax_trees@[tree as int].structs@.len(),
                *declaration == syntax_trees@[tree as int].structs@[index as int],
                !name_taken(old(env), scope_id as int, declaration.name@),
                struct_declares_cleanly(old(env), syntax_trees@, tree as int, index as int, scope_id as int) ==> *env == e1,
            decreases declaration.fields@.len() - i,
        {
            let ghost prefix = fields_names(trees, t, declaration.fields@.take(i as int));
            let ghost key = (seq![declaration.fields@[i as int].field_type.name.spec_key()], Seq::<(Seq<Seq<u8>>, ScopeId)>::empty());
            seen_names.type_names.push(declaration.fields[i].field_type.name.duplicate());
            proof {
                assert(collected(seen_names).0 =~= then(then(start, prefix), key).0);
                assert(collected(seen_names).1 =~= then(then(start, prefix), key).1);
                assert(declaration.fields@.take(i + 1).drop_last() =~= declaration.fields@.take(i as int));
                lemma_then_assoc(start, prefix, key);
            }
            match &declaration.fields[i].default_value {
                Some(v) => {
                    proof {
                        if struct_declares_cleanly(old(env), syntax_trees@, tree as int, index as int, scope_id as int) {
                            assert(declaration.fields@[i as int].default_value == Some(*v));
                            assert(walks_freely(*v, MAX_NESTING as nat, env.scopes@.len()));
                        }
                    }
                    let ghost e2 = *env;
                    Self::add_expression(env, syntax_trees, tree, v, scope_id, seen_names, MAX_NESTING)?;
                    proof {
                        lemma_only_declarations_trans(&e1, &e2, env);
                        lemma_only_declarations_trans(old(env), &e2, env);
                        lemma_kept_trans(&e1, &e2, env);
                        lemma_then_assoc(then(start, prefix), key, expression_names(trees, t, *v, MAX_NESTING as nat));
                        lemma_then_assoc(start, prefix, field_names(trees, t, declaration.fields@[i as int]));
                    }
                },
                None => {
                    proof {
                        lemma_then_none(key);
                        lemma_then_assoc(start, prefix, field_names(trees, t, declaration.fields@[i as int]));
                    }
                },
            }
            i = i + 1;
        }
        proof {
            assert(declaration.fields@.take(declaration.fields@.len() as int) =~= declaration.fields@);
        }
        let ghost head = then(start, fields_names(trees, t, declaration.fields@));
        match &declaration.body {
            Some(body) => {
                let body_scope_id = body.scope;
                if body_scope_id >= env.scopes.len() {
                    return Err(EnvError::InvalidState);
                }
                let self_name: Vec<u8> = vec![115u8, 101, 108, 102];
                let ghost e2 = *env;
                let ghost self_view = self_name@;
                proof {
                    assert(self_view =~= self_word());
                }
                env.declare(body_scope_id, self_name, element);
                proof {
                    lemma_declare_only_declarations(&e2, env, body_scope_id as int, self_view);
                    lemma_declare_kept(&e2, env, body_scope_id as int, self_view);
                    lemma_only_declarations_trans(&e1, &e2, env);
                    lemma_only_declarations_trans(old(env), &e2, env);
                    lemma_kept_trans(&e1, &e2, env);
                    assert(body.attributes@.take(0) =~= Seq::<usize>::empty());
                    lemma_then_none(head);
                    if struct_declares_cleanly(old(env), syntax_trees@, tree as int, index as int, scope_id as int) {
                        let cs = syntax_trees@[tree as int].constants@;
                        assert(declaration.body == Some(*body));
                        assert forall|k: int| 0 <= k < body.attributes@.len() implies !name_taken(
                            env,
                            body_scope_id as int,
                            cs[#[trigger] body.attributes@[k] as int].name@,
                        ) by {
                            let c = body.attributes@[k];
                            assert(!name_taken(old(env), body.scope as int, cs[c as int].name@));
                            assert(e1.scopes@[body_scope_id as int] == old(env).scopes@[body_scope_id as int]);
                        }
                    }
                }
                let mut j: usize = 0;
                while j < body.attributes.len()
                    invariant
                        only_declarations_changed(old(env), env),
                        only_declarations_changed(&e1, env),
                        declarations_kept(&e1, env),
                        declarations_kept(old(env), &e1),
                        e1.scopes@[scope_id as int].name_spaces.declared.get_spec(declaration.name@) == Some(element),
                        e1.scopes@.len() == old(env).scopes@.len(),
                        scope_id < e1.scopes@.len(),
                        index < syntax_trees@[tree as int].structs@.len(),
                        *declaration == syntax_trees@[tree as int].structs@[index as int],
                        declaration.body is Some,
                        !name_taken(old(env), scope_id as int, declaration.name@),
                        body_scope_id < env.scopes@.len(),
                        tree < syntax_trees@.len(),
                        j <= body.attributes@.len(),
                        trees == syntax_trees@,
                        t == tree as int,
                        collected(seen_names) == then(head, constants_names(trees, t, body.attributes@.take(j as int))),
                        declaration.body == Some(*body),
                        struct_declares_cleanly(old(env), syntax_trees@, tree as int, index as int, scope_id as int)
                            ==> forall|q: int| 0 <= q < env.scopes@.len() && q != body_scope_id ==> #[trigger] env.scopes@[q] == e1.scopes@[q],
                        struct_declares_cleanly(old(env), syntax_trees@, tree as int, index as int, scope_id as int)
                            ==> env.scopes@.len() == old(env).scopes@.len() && forall|k: int|
                            j <= k < body.attributes@.len() ==> !name_taken(
                                env,
                                body_scope_id as int,
                                syntax_trees@[tree as int].constants@[#[trigger] body.attributes@[k] as int].name@,
                            ),
                    decreases body.attributes@.len() - j,
                {
                    let ghost e3 = *env;
                    proof {
                        if struct_declares_cleanly(old(env), syntax_trees@, tree as int, index as int, scope_id as int) {
                            let c = body.attributes@[j as int];
                            assert(!name_taken(env, body_scope_id as int, syntax_trees@[tree as int].constants@[c as int].name@));
                        }
                    }
                    Self::add_constant(env, syntax_trees, tree, body.attributes[j], body_scope_id, seen_names, MAX_NESTING)?;
                    proof {
                        lemma_only_declarations_trans(&e1, &e3, env);
                        lemma_only_declarations_trans(old(env), &e3, env);
                        lemma_kept_trans(&e1, &e3, env);
                        assert(body.attributes@.take(j + 1).drop_last() =~= body.attributes@.take(j as int));
                        lemma_then_assoc(
                            head,
                            constants_names(trees, t, body.attributes@.take(j as int)),
                            constant_names(trees, t, body.attributes@[j as int] as int, MAX_NESTING as nat),
                        );
                    }
                    j = j + 1;
                }
                proof {
                    assert(body.attributes@.take(body.attributes@.len() as int) =~= body.attributes@);
                    lemma_then_assoc(
                        start,
                        fields_names(trees, t, declaration.fields@),
                        constants_names(trees, t, body.attributes@),
                    );
                }
            },
            None => {
                proof {
                    lemma_then_none(fields_names(trees, t, declaration.fields@));
                }
            },
        }
        proof {
            lemma_kept_trans(old(env), &e1, env);
        }
        Ok(())
    }

    /// Declares trait `index` of tree `tree` in the scope and collects the names of the types
    /// it requires.
    fn add_trait_declaration(
        env: &mut Environment,
        syntax_trees: &Vec<AbstractSyntaxTree>,
        tree: usize,
        index: usize,
        scope_id: ScopeId,
        seen_names: &mut UnresolvedNames,
    ) -> (res: Result<(), EnvError>)
        requires
            old(env).wf(),
            scope_id < old(env).scopes@.len(),
            tree < syntax_trees@.len(),
        ensures
            only_declarations_changed(old(env), final(env)),
            res is Ok ==> declarations_kept(old(env), final(env)) && index < syntax_trees@[tree as int].traits@.len()
                && final(env).scopes@[scope_id as int].name_spaces.declared.get_spec(
                syntax_trees@[tree as int].traits@[index as int].name@,
            ) == Some(DeclaredElement::Trait(DeclId { tree, index })),
            res is Ok ==> collected(final(seen_names)) == then(
                collected(old(seen_names)),
                trait_names(syntax_trees@, tree as int, index as int),
            ),
            res is Ok <==> index < syntax_trees@[tree as int].traits@.len()
                && !name_taken(old(env), scope_id as int, syntax_trees@[tree as int].traits@[index as int].name@),
            index >= syntax_trees@[tree as int].traits@.len() ==> res == Err::<(), EnvError>(EnvError::InvalidState),
            index < syntax_trees@[tree as int].traits@.len()
                && name_taken(old(env), scope_id as int, syntax_trees@[tree as int].traits@[index as int].name@)
                ==> (res matches Err(EnvError::DuplicateDeclaration(n))
                    && n@ == syntax_trees@[tree as int].traits@[index as int].name@),
            res is Ok ==> changed_only(
                old(env),
                final(env),
                scope_id as int,
                decl_name(syntax_trees@, tree as int, Declaration::Trait(index)),
                None,
            ),
    {
        if index >= syntax_trees[tree].traits.len() {
            return Err(EnvError::InvalidState);
        }
        let declaration = &syntax_trees[tree].traits[index];
        let element = DeclaredElement::Trait(DeclId { tree, index });
        let ghost e0 = *env;
        let ghost start = collected(seen_names);
        let duplicate = env.declare(scope_id, copy_bytes(declaration.name.as_slice()), element);
        proof {
            lemma_declare_only_declarations(&e0, env, scope_id as int, declaration.name@);
        }
        if duplicate.is_some() {
            return Err(EnvError::DuplicateDeclaration(copy_bytes(declaration.name.as_slice())));
        }
        proof {
            lemma_declare_kept(&e0, env, scope_id as int, declaration.name@);
            assert(start.0 + declaration.required@.take(0).map_values(|f: Field| f.field_type.name.spec_key()) =~= start.0);
        }
        let mut i: usize = 0;
        while i < declaration.required.len()
            invariant
                tree < syntax_trees@.len(),
                i <= declaration.required@.len(),
                collected(seen_names).1 == start.1,
                collected(seen_names).0 == start.0 + declaration.required@.take(i as int).map_values(
                    |f: Field| f.field_type.name.spec_key(),
                ),
            decreases declaration.required@.len() - i,
        {
            let ghost before = seen_names.type_names@;
            seen_names.type_names.push(declaration.required[i].field_type.name.duplicate());
            proof {
                assert(declaration.required@.take(i + 1).map_values(|f: Field| f.field_type.name.spec_key())
                    =~= declaration.required@.take(i as int).map_values(|f: Field| f.field_type.name.spec_key()).push(
                    declaration.required@[i as int].field_type.name.spec_key(),
                ));
                assert(keys_of(seen_names.type_names@) =~= keys_of(before).push(
                    declaration.required@[i as int].field_type.name.spec_key(),
                ));
                assert(collected(seen_names).0 =~= start.0 + declaration.required@.take(i + 1).map_values(
                    |f: Field| f.field_type.name.spec_key(),
                ));
            }
            i = i + 1;
        }
        proof {
            assert(declaration.required@.take(declaration.required@.len() as int) =~= declaration.required@);
            assert(collected(seen_names).1 =~= start.1 + Seq::empty());
        }
        Ok(())
    }
}

} // verus!
