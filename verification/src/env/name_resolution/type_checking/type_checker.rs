//! Finds the type of every expression and checks that values fit where they are used.
use crate::ast::{
    AbstractSyntaxTree, Accessor, Block, ConstantDeclaration, DeclId, Declaration, Expression,
    Field, Name, Parameter, ScopeId, Statement,
};
use crate::env::checks::type_checking::error::Error as ContentError;
use crate::env::checks::type_checking::essential_trait;
use crate::env::checks::type_checking::render_impl_checker::{spec_in_essential, spec_in_essential_render, RenderImplChecker};
use crate::env::checks::type_checking::type_resolver::{resolve_literal, resolve_type_name, spec_resolve_type_name};
use crate::env::checks::type_checking::types::{display_type, FieldId, Primitive, TypedElement, Types};
use crate::env::construction::scope_operations::MAX_NESTING;
use crate::env::environment::Environment;
use crate::env::error::EnvError;
use crate::env::scope::DeclaredElement;
use crate::env::declaration_resolution::declaration_operations::self_word;
use crate::env::name_resolution::resolve_helper::{lexically_declared, ResolveHelper};
use crate::env::name_resolution::resolved::Resolved;
use crate::env::name_resolution::type_checking::struct_init_checker::Error as InitError;
use crate::env::name_resolution::type_checking::struct_init_checker::{label_of, label_type};
use crate::names::{copy_bytes, join_path, Ident, Table, TableKey};
use vstd::prelude::*;

verus! {

/// The error owed for the entry of the program before its type is looked at: none where
/// `Main` is a constant and `std.essential.Render` a trait.
pub open spec fn entry_refusal(env: &Environment) -> Option<EnvError> {
    match env.declared_entry() {
        None => Some(EnvError::EntryNotDeclared),
        Some(DeclaredElement::Constant(_)) => match essential_trait::spec_render(env) {
            Ok(Some(_)) => None,
            Ok(None) => Some(EnvError::RenderNotFound),
            Err(_) => None,
        },
        Some(_) => Some(EnvError::EntryNotConstant),
    }
}

/// `Main` is a constant of the global scope and `std.essential.Render` is a trait.
pub open spec fn entry_found(env: &Environment) -> bool {
    &&& env.declared_entry() matches Some(DeclaredElement::Constant(_))
    &&& essential_trait::spec_render(env) matches Ok(Some(_))
}

/// What the checker is in the middle of: names, fields and constants whose type it is
/// finding, and pairs of a type and a trait whose conformance it is checking. Meeting one
/// of them again means that it depends on itself.
pub struct CheckState {
    pub checking_names: Vec<Name>,
    pub resolving_fields: Vec<FieldId>,
    pub resolving_constants: Vec<DeclId>,
    pub checking_conformance: Vec<(Types, Types)>,
}

fn name_in(stack: &Vec<Name>, name: &Name) -> (r: bool)
    ensures
        r == exists|i: int| 0 <= i < stack@.len() && #[trigger] stack@[i].spec_key() == name.spec_key(),
{
    let mut i: usize = 0;
    while i < stack.len()
        invariant
            i <= stack@.len(),
            forall|j: int| 0 <= j < i ==> #[trigger] stack@[j].spec_key() != name.spec_key(),
        decreases stack@.len() - i,
    {
        if stack[i].same_key(name) {
            return true;
        }
        i = i + 1;
    }
    false
}

fn decl_in(stack: &Vec<DeclId>, item: DeclId) -> (r: bool)
    ensures
        r == stack@.contains(item),
{
    let mut i: usize = 0;
    while i < stack.len()
        invariant
            i <= stack@.len(),
            forall|j: int| 0 <= j < i ==> stack@[j] != item,
        decreases stack@.len() - i,
    {
        if stack[i] == item {
            assert(stack@[i as int] == item);
            return true;
        }
        i = i + 1;
    }
    false
}

fn field_in(stack: &Vec<FieldId>, item: FieldId) -> (r: bool)
    ensures
        r == stack@.contains(item),
{
    let mut i: usize = 0;
    while i < stack.len()
        invariant
            i <= stack@.len(),
            forall|j: int| 0 <= j < i ==> stack@[j] != item,
        decreases stack@.len() - i,
    {
        if stack[i] == item {
            assert(stack@[i as int] == item);
            return true;
        }
        i = i + 1;
    }
    false
}

fn pair_in(stack: &Vec<(Types, Types)>, source: Types, target: Types) -> (r: bool)
    ensures
        r == stack@.contains((source, target)),
{
    let mut i: usize = 0;
    while i < stack.len()
        invariant
            i <= stack@.len(),
            forall|j: int| 0 <= j < i ==> stack@[j] != (source, target),
        decreases stack@.len() - i,
    {
        if stack[i].0 == source && stack[i].1 == target {
            assert(stack@[i as int] == (source, target));
            return true;
        }
        i = i + 1;
    }
    false
}

/// The constant that the id names.
pub fn constant_of<'t>(trees: &'t Vec<AbstractSyntaxTree>, d: DeclId) -> (r: Result<&'t ConstantDeclaration, EnvError>)
    ensures
        r matches Ok(c) ==> d.tree < trees@.len() && d.index < trees@[d.tree as int].constants@.len()
            && *c == trees@[d.tree as int].constants@[d.index as int],
        r is Err ==> !(d.tree < trees@.len() && d.index < trees@[d.tree as int].constants@.len()),
{
    if d.tree < trees.len() && d.index < trees[d.tree].constants.len() {
        Ok(&trees[d.tree].constants[d.index])
    } else {
        Err(EnvError::InvalidState)
    }
}

/// The field that the id names.
pub fn field_of<'t>(trees: &'t Vec<AbstractSyntaxTree>, f: FieldId) -> (r: Result<&'t Field, EnvError>)
    ensures
        r matches Ok(field) ==> f.owner.tree < trees@.len() && if f.in_trait {
            f.owner.index < trees@[f.owner.tree as int].traits@.len()
                && f.index < trees@[f.owner.tree as int].traits@[f.owner.index as int].required@.len()
                && *field == trees@[f.owner.tree as int].traits@[f.owner.index as int].required@[f.index as int]
        } else {
            f.owner.index < trees@[f.owner.tree as int].structs@.len()
                && f.index < trees@[f.owner.tree as int].structs@[f.owner.index as int].fields@.len()
                && *field == trees@[f.owner.tree as int].structs@[f.owner.index as int].fields@[f.index as int]
        },
        r is Err ==> r == Err::<&Field, EnvError>(EnvError::InvalidState),
        r is Err <==> !field_exists(trees@, f),
{
    let d = f.owner;
    if d.tree >= trees.len() {
        return Err(EnvError::InvalidState);
    }
    if f.in_trait {
        if d.index < trees[d.tree].traits.len() && f.index < trees[d.tree].traits[d.index].required.len() {
            return Ok(&trees[d.tree].traits[d.index].required[f.index]);
        }
    } else {
        if d.index < trees[d.tree].structs.len() && f.index < trees[d.tree].structs[d.index].fields.len() {
            return Ok(&trees[d.tree].structs[d.index].fields[f.index]);
        }
    }
    Err(EnvError::InvalidState)
}

impl CheckState {
    /// A state in the middle of nothing.
    pub fn new() -> (s: CheckState)
        ensures
            s.checking_names@.len() == 0,
            s.resolving_fields@.len() == 0,
            s.resolving_constants@.len() == 0,
            s.checking_conformance@.len() == 0,
    {
        CheckState {
            checking_names: Vec::new(),
            resolving_fields: Vec::new(),
            resolving_constants: Vec::new(),
            checking_conformance: Vec::new(),
        }
    }

    /// The type of an expression, once every part of it is checked: the names it uses stand
    /// for values, the structs it initializes take its parameters, the fields it accesses
    /// exist and the values it gives them fit.
    pub fn resolve_expression(
        &mut self,
        env: &Environment,
        trees: &Vec<AbstractSyntaxTree>,
        expression: &Expression,
        fuel: usize,
    ) -> (res: Result<Types, EnvError>)
        requires
            env.wf(),
        ensures
            expression matches Expression::Literal { kind, .. } ==> res == Ok::<Types, EnvError>(
                resolve_literal_spec(*kind),
            ),
            expression is Void ==> res == Ok::<Types, EnvError>(Types::Primitive(Primitive::Void)),
            res is Ok ==> match *expression {
                Expression::ConstUse(name) => env.resolved_names.get_spec(name.spec_key()) matches Some(r) && (r is Constant
                    || r is InstanceAccess),
                Expression::SelfRef(_) => res->Ok_0 is Struct,
                Expression::StructInit { name, parameters, init_content } => spec_resolve_type_name(env, &name, false) == Some(
                    Some(res->Ok_0),
                ) && if init_content is None {
                    &&& parameters@.len() <= res->Ok_0.spec_fields(trees@).len()
                    &&& parameters@.len() > 0 && parameters@[0] is Labelled ==> labels_supply(res->Ok_0.spec_fields(trees@), parameters@)
                    &&& parameters@.len() > 0 && !(parameters@[0] is Labelled) ==> exists|m: Seq<int>|
                        fills_in_order(res->Ok_0.spec_fields(trees@), parameters@.len(), m)
                } else {
                    parameters@.len() < res->Ok_0.spec_fields(trees@).len()
                },
                Expression::Collection(es) => if es@.len() == 0 {
                    res->Ok_0 == Types::Primitive(Primitive::Void)
                } else {
                    res->Ok_0.is_collection()
                },
                Expression::Block(b) => (b.statements@.len() == 0 || b.statements@.last() is ConstantDeclaration) ==> res->Ok_0
                    == Types::Primitive(Primitive::Void),
                Expression::ChainingMethodInvocation { receiver, accessors } => (forall|k: int|
                    0 <= k < accessors@.len() ==> (res->Ok_0.spec_field(trees@, (#[trigger] accessors@[k]).identifier@) matches Some(f)
                        && (accessors@[k].value is None ==> field_has_default(trees@, f)))) && (*receiver matches Expression::StructInit {
                    name,
                    ..
                } ==> spec_resolve_type_name(env, &name, false) == Some(Some(res->Ok_0))),
                _ => true,
            },
            res is Ok ==> value_checked(env, *expression),
            res matches Ok(t) ==> expression_type_fits(env, trees@, *expression, t),
            simply_typed(env, trees@, *expression, fuel as nat, stack_keys(old(self).checking_names@), old(self).resolving_constants@)
                ==> res == Ok::<Types, EnvError>(
                simple_type(env, trees@, *expression, fuel as nat, stack_keys(old(self).checking_names@), old(self).resolving_constants@),
            ) && same_stacks(*final(self), *old(self)),
            *expression matches Expression::ConstUse(n) && env.resolved_names.get_spec(n.spec_key()) matches Some(
                Resolved::Constant(c),
            ) && (fuel == 0 || use_chain_cycles(env, trees@, c, old(self).resolving_constants@, (fuel - 1) as nat)) ==> res is Err,
        decreases fuel, 1nat,
    {
        match expression {
            Expression::Literal { kind, .. } => {
                return Ok(resolve_literal(kind));
            },
            Expression::Void => {
                return Ok(Types::Primitive(Primitive::Void));
            },
            _ => {},
        }
        if fuel == 0 {
            return Err(EnvError::NestingTooDeep);
        }
        let f = fuel - 1;
        let ghost keys = stack_keys(self.checking_names@);
        let ghost cs = self.resolving_constants@;
        let ghost hyp = simply_typed(env, trees@, *expression, fuel as nat, keys, cs);
        match expression {
            Expression::ConstUse(name) => match self.resolve_from_resolved_names(env, trees, name, f)? {
                Some(t) => Ok(t),
                None => Err(EnvError::UnresolvableName(join_path(name.moniker.as_slice()))),
            },
            Expression::SelfRef(scope) => Self::resolve_self(env, *scope),
            Expression::Literal { kind, .. } => Ok(resolve_literal(kind)),
            Expression::Block(block) => self.resolve_block(env, trees, block, f),
            Expression::StructInit { name, parameters, init_content } => {
                let init_expressions: Option<&[Expression]> = match init_content {
                    Some(content) => Some(content.expressions.as_slice()),
                    None => None,
                };
                let r = self.resolve_struct_init(env, trees, name, parameters.as_slice(), init_expressions, f);
                proof {
                    if r is Ok {
                        match init_content {
                            Some(content) => {
                                assert(init_expressions is Some && init_expressions->0@ == content.expressions@);
                                assert forall|i: int| 0 <= i < content.expressions@.len() implies value_checked(
                                    env,
                                    #[trigger] content.expressions@[i],
                                ) by {
                                    assert(init_expressions->0@[i] == content.expressions@[i]);
                                }
                            },
                            None => {},
                        }
                    }
                }
                r
            },
            Expression::ChainingMethodInvocation { receiver, accessors } => self.resolve_chaining_method(
                env,
                trees,
                receiver,
                accessors.as_slice(),
                f,
            ),
            Expression::FieldAccess { receiver, field_names } => self.resolve_field_access(
                env,
                trees,
                receiver,
                field_names.as_slice(),
                f,
            ),
            Expression::Collection(elements) => {
                proof {
                    if hyp {
                        assert(*expression matches Expression::Collection(x) && x == *elements);
                        assert(forall|j: int| 0 <= j < elements@.len() ==> simply_typed(
                            env,
                            trees@,
                            #[trigger] elements@[j],
                            (fuel - 1) as nat,
                            keys,
                            cs,
                        ));
                        assert(f as nat == (fuel - 1) as nat);
                    }
                }
                let mut element_type: Option<Types> = None;
                let mut i: usize = 0;
                while i < elements.len()
                    invariant
                        env.wf(),
                        f + 1 == fuel,
                        *expression == Expression::Collection(*elements),
                        i <= elements@.len(),
                        element_type is None <==> i == 0,
                        keys == stack_keys(old(self).checking_names@),
                        cs == old(self).resolving_constants@,
                        hyp == simply_typed(env, trees@, *expression, fuel as nat, keys, cs),
                        hyp ==> same_stacks(*self, *old(self)),
                        hyp ==> forall|j: int| 0 <= j < elements@.len() ==> simply_typed(env, trees@, #[trigger] elements@[j], f as nat, keys, cs),
                        hyp && i > 0 ==> element_type == Some(simple_type(env, trees@, elements@[0], f as nat, keys, cs)),
                        forall|j: int| 0 <= j < i ==> value_checked(env, #[trigger] elements@[j]),
                    decreases elements@.len() - i,
                {
                    assert(hyp ==> simply_typed(env, trees@, elements@[i as int], f as nat, keys, cs));
                    let t = self.resolve_expression(env, trees, &elements[i], f)?;
                    if element_type.is_none() {
                        element_type = Some(t);
                    }
                    i = i + 1;
                }
                match element_type {
                    Some(t) => Ok(t.collection_type()),
                    None => Ok(Types::Primitive(Primitive::Void)),
                }
            },
            Expression::Void => Ok(Types::Primitive(Primitive::Void)),
        }
    }

    /// The type of the value that a name stands for; `None` where no type is recorded for
    /// the name. An error where the name stands for a module, a struct or a trait, or where
    /// its value depends on itself.
    fn resolve_from_resolved_names(
        &mut self,
        env: &Environment,
        trees: &Vec<AbstractSyntaxTree>,
        name: &Name,
        fuel: usize,
    ) -> (res: Result<Option<Types>, EnvError>)
        requires
            env.wf(),
        ensures
            res matches Ok(Some(_)) ==> (env.resolved_names.get_spec(name.spec_key()) matches Some(r)
                && (r is Constant || r is InstanceAccess)),
            res matches Ok(None) ==> env.resolved_names.get_spec(name.spec_key()) is None,
            (exists|i: int| 0 <= i < old(self).checking_names@.len() && #[trigger] old(self).checking_names@[i].spec_key()
                == name.spec_key()) ==> (res matches Err(EnvError::CycleReference(_))),
            use_typed(env, trees@, *name, fuel as nat, stack_keys(old(self).checking_names@), old(self).resolving_constants@)
                ==> res == Ok::<Option<Types>, EnvError>(
                Some(use_type(env, trees@, *name, fuel as nat, stack_keys(old(self).checking_names@), old(self).resolving_constants@)),
            ) && same_stacks(*final(self), *old(self)),
            !(exists|i: int| 0 <= i < old(self).checking_names@.len() && #[trigger] old(self).checking_names@[i].spec_key()
                == name.spec_key()) ==> match env.resolved_names.get_spec(name.spec_key()) {
                None => res == Ok::<Option<Types>, EnvError>(None),
                Some(r) => !(r is Constant || r is InstanceAccess) ==> (res matches Err(EnvError::NotAValue(_))),
            },
            env.resolved_names.get_spec(name.spec_key()) matches Some(Resolved::Constant(c)) && use_chain_cycles(
                env,
                trees@,
                c,
                old(self).resolving_constants@,
                fuel as nat,
            ) ==> res is Err,
        decreases fuel, 3nat,
    {
        proof {
            assert forall|i: int| 0 <= i < self.checking_names@.len() implies #[trigger] stack_keys(self.checking_names@)[i]
                == self.checking_names@[i].spec_key() by {}
        }
        if name_in(&self.checking_names, name) {
            proof {
                let i = choose|i: int| 0 <= i < self.checking_names@.len() && #[trigger] self.checking_names@[i].spec_key()
                    == name.spec_key();
                assert(stack_keys(self.checking_names@)[i] == name.spec_key());
                assert(stack_keys(self.checking_names@).contains(name.spec_key()));
            }
            return Err(EnvError::CycleReference(join_path(name.moniker.as_slice())));
        }
        let resolved = match env.resolved_names.get(name) {
            Some(r) => r,
            None => {
                return Ok(None);
            },
        };
        let ghost names_before = self.checking_names@;
        let dup = name.duplicate();
        self.checking_names.push(dup);
        proof {
            assert(stack_keys(self.checking_names@) =~= stack_keys(names_before).push(name.spec_key()));
        }
        let resolved_type = match resolved {
            Resolved::Constant(constant) => self.resolve_constant_value(env, trees, *constant, fuel)?,
            Resolved::InstanceAccess(instance, fields) => self.resolve_from_instance_fields(
                env,
                trees,
                *instance,
                fields.as_slice(),
                fuel,
            )?,
            _ => {
                return Err(EnvError::NotAValue(join_path(name.moniker.as_slice())));
            },
        };
        self.checking_names.pop();
        proof {
            if use_typed(env, trees@, *name, fuel as nat, stack_keys(old(self).checking_names@), old(self).resolving_constants@) {
                assert(self.checking_names@ =~= names_before);
            }
        }
        Ok(Some(resolved_type))
    }

    /// The type of the value of a constant.
    fn resolve_constant_value(&mut self, env: &Environment, trees: &Vec<AbstractSyntaxTree>, constant: DeclId, fuel: usize) -> (res: Result<Types, EnvError>)
        requires
            env.wf(),
        ensures
            res is Ok ==> constant_checked(env, trees@, constant.tree as int, constant.index as int),
            res matches Ok(t) ==> constant_exists(trees@, constant) && expression_type_fits(
                env,
                trees@,
                trees@[constant.tree as int].constants@[constant.index as int].value,
                t,
            ),
            !constant_exists(trees@, constant) ==> res is Err,
            constant_exists(trees@, constant) && old(self).resolving_constants@.contains(constant) ==> (res matches Err(
                EnvError::CycleReference(n),
            ) && n@ == trees@[constant.tree as int].constants@[constant.index as int].name@),
            constant_exists(trees@, constant) && !old(self).resolving_constants@.contains(constant) && simply_typed(
                env,
                trees@,
                trees@[constant.tree as int].constants@[constant.index as int].value,
                fuel as nat,
                stack_keys(old(self).checking_names@),
                old(self).resolving_constants@.push(constant),
            ) ==> res == Ok::<Types, EnvError>(
                simple_type(
                    env,
                    trees@,
                    trees@[constant.tree as int].constants@[constant.index as int].value,
                    fuel as nat,
                    stack_keys(old(self).checking_names@),
                    old(self).resolving_constants@.push(constant),
                ),
            ) && same_stacks(*final(self), *old(self)),
            constant_exists(trees@, constant) && !old(self).resolving_constants@.contains(constant) ==> (immediate_type(
                trees@[constant.tree as int].constants@[constant.index as int].value,
            ) matches Some(t) ==> res == Ok::<Types, EnvError>(t)),
            use_chain_cycles(env, trees@, constant, old(self).resolving_constants@, fuel as nat) ==> res is Err,
        decreases fuel, 2nat,
    {
        let declaration = constant_of(trees, constant)?;
        if decl_in(&self.resolving_constants, constant) {
            return Err(EnvError::CycleReference(copy_bytes(declaration.name.as_slice())));
        }
        let ghost consts_before = self.resolving_constants@;
        self.resolving_constants.push(constant);
        let t = self.resolve_expression(env, trees, &declaration.value, fuel)?;
        self.resolving_constants.pop();
        proof {
            if constant_exists(trees@, constant) && !old(self).resolving_constants@.contains(constant) && simply_typed(
                env,
                trees@,
                trees@[constant.tree as int].constants@[constant.index as int].value,
                fuel as nat,
                stack_keys(old(self).checking_names@),
                old(self).resolving_constants@.push(constant),
            ) {
                assert(self.resolving_constants@ =~= consts_before);
            }
        }
        Ok(t)
    }

    /// The type of `self` in a scope: the struct whose body the scope is in.
    fn resolve_self(env: &Environment, scope: ScopeId) -> (res: Result<Types, EnvError>)
        requires
            env.wf(),
        ensures
            res matches Ok(t) ==> t is Struct,
            scope >= env.scopes@.len() ==> res == Err::<Types, EnvError>(EnvError::InvalidState),
            scope < env.scopes@.len() ==> (lexically_declared(env.scopes@, scope, self_word()) matches Some(d) ==> match d {
                DeclaredElement::Struct(s) => res == Ok::<Types, EnvError>(Types::Struct(s)),
                _ => res == Err::<Types, EnvError>(EnvError::SelfOutsideStruct),
            }),
    {
        if scope >= env.scopes.len() {
            return Err(EnvError::InvalidState);
        }
        let self_name: Vec<u8> = vec![115u8, 101, 108, 102];
        assert(self_name@ =~= self_word());
        match ResolveHelper::resolve(env, scope, self_name.as_slice())? {
            Some(Resolved::Struct(s)) => Ok(Types::Struct(s)),
            _ => Err(EnvError::SelfOutsideStruct),
        }
    }

    /// The type reached from a constant through a path of fields and attributes.
    fn resolve_from_instance_fields(
        &mut self,
        env: &Environment,
        trees: &Vec<AbstractSyntaxTree>,
        instance: DeclId,
        fields: &[Ident],
        fuel: usize,
    ) -> (res: Result<Types, EnvError>)
        requires
            env.wf(),
        ensures
            fuel == 0 ==> res == Err::<Types, EnvError>(EnvError::NestingTooDeep),
            res is Ok ==> constant_checked(env, trees@, instance.tree as int, instance.index as int),
            fuel > 0 && !constant_exists(trees@, instance) ==> res is Err,
            fuel > 0 && fields@.len() == 0 && constant_exists(trees@, instance)
                && !old(self).resolving_constants@.contains(instance) ==> (immediate_type(
                trees@[instance.tree as int].constants@[instance.index as int].value,
            ) matches Some(t) ==> res == Ok::<Types, EnvError>(t)),
            res matches Ok(t) ==> exists|chain: Seq<Types>|
                #[trigger] path_chain(env, trees@, chain, fields@) && constant_exists(trees@, instance) && expression_type_fits(
                    env,
                    trees@,
                    trees@[instance.tree as int].constants@[instance.index as int].value,
                    chain[0],
                ) && chain.last() == t,
        decreases fuel, 1nat,
    {
        if fuel == 0 {
            return Err(EnvError::NestingTooDeep);
        }
        let f = fuel - 1;
        let instance_type = self.resolve_constant_value(env, trees, instance, f)?;
        proof {
            assert(plain_path_upto(env, trees@, seq![instance_type], fields@, self.resolving_fields@, 0));
        }
        self.follow_path(env, trees, instance_type, fields, f)
    }

    /// The type reached from `start` through a path of fields and attributes: each name is
    /// looked up on the type reached through the names before it, and the type reached is
    /// the declared type of the field found, or the type of the value of the attribute.
    fn follow_path(
        &mut self,
        env: &Environment,
        trees: &Vec<AbstractSyntaxTree>,
        start: Types,
        names: &[Ident],
        fuel: usize,
    ) -> (res: Result<Types, EnvError>)
        requires
            env.wf(),
        ensures
            res matches Ok(t) ==> exists|chain: Seq<Types>|
                #[trigger] path_chain(env, trees@, chain, names@) && chain[0] == start && chain.last() == t,
            forall|chain: Seq<Types>, k: int|
                0 <= k <= names@.len() && chain.len() == k + 1 && chain[0] == start && #[trigger] plain_path_upto(
                    env,
                    trees@,
                    chain,
                    names@,
                    old(self).resolving_fields@,
                    k,
                ) ==> if k == names@.len() {
                    res == Ok::<Types, EnvError>(chain[k])
                } else {
                    chain[k].spec_access(trees@, names@[k]@) is None ==> (res matches Err(EnvError::FieldNotFound(n))
                        && n@ == names@[k]@)
                },
        decreases fuel, 4nat,
    {
        let mut current_type = start;
        let ghost mut chain: Seq<Types> = seq![start];
        let ghost resolving = self.resolving_fields@;
        let mut i: usize = 0;
        while i < names.len()
            invariant
                env.wf(),
                i <= names@.len(),
                chain.len() == i + 1,
                chain[0] == start,
                chain.last() == current_type,
                path_chain(env, trees@, chain, names@.take(i as int)),
                resolving == old(self).resolving_fields@,
                forall|c: Seq<Types>, k: int|
                    0 <= k <= i && c.len() > k && c[0] == start && #[trigger] plain_path_upto(env, trees@, c, names@, resolving, k)
                        ==> c[k] == chain[k] && plain_path_upto(env, trees@, chain, names@, resolving, k),
                plain_path_upto(env, trees@, chain, names@, resolving, i as int) ==> self.resolving_fields@ == resolving,
                forall|k: int| 0 <= k < i ==> (#[trigger] chain[k]).spec_access(trees@, names@[k]@) is Some,
            decreases names@.len() - i,
        {
            let ghost before = chain;
            let ghost was_plain = plain_path_upto(env, trees@, chain, names@, resolving, i as int);
            let found = current_type.access(trees, names[i].as_slice());
            proof {
                assert forall|c: Seq<Types>, k: int|
                    i < k <= names@.len() && c.len() > k && c[0] == start && #[trigger] plain_path_upto(
                        env,
                        trees@,
                        c,
                        names@,
                        resolving,
                        k,
                    ) implies plain_step(env, trees@, current_type, names@[i as int]@, c[i + 1], resolving)
                    && self.resolving_fields@ == resolving by {
                    lemma_plain_prefix(env, trees@, c, names@, resolving, k, i as int);
                    assert(c[i as int] == chain[i as int]);
                    assert(plain_step(env, trees@, c[i as int], names@[i as int]@, c[i + 1], resolving));
                }
            }
            let next = match found {
                Some(TypedElement::Field(field)) => {
                    let r = self.resolve_field(env, trees, field, fuel);
                    proof {
                        if r is Err {
                            assert forall|c: Seq<Types>, k: int|
                                0 <= k <= names@.len() && c.len() == k + 1 && c[0] == start && #[trigger] plain_path_upto(
                                    env,
                                    trees@,
                                    c,
                                    names@,
                                    resolving,
                                    k,
                                ) implies k < names@.len() && c[k].spec_access(trees@, names@[k]@) is Some by {
                                if k > i {
                                    assert(plain_step(env, trees@, current_type, names@[i as int]@, c[i + 1], resolving));
                                } else {
                                    assert(c[k] == chain[k]);
                                }
                            }
                        }
                    }
                    r?
                },
                Some(TypedElement::Constant(constant)) => {
                    let r = self.resolve_constant_value(env, trees, constant, fuel);
                    proof {
                        if r is Err {
                            assert forall|c: Seq<Types>, k: int|
                                0 <= k <= names@.len() && c.len() == k + 1 && c[0] == start && #[trigger] plain_path_upto(
                                    env,
                                    trees@,
                                    c,
                                    names@,
                                    resolving,
                                    k,
                                ) implies k < names@.len() && c[k].spec_access(trees@, names@[k]@) is Some by {
                                if k > i {
                                    assert(plain_step(env, trees@, current_type, names@[i as int]@, c[i + 1], resolving));
                                } else {
                                    assert(c[k] == chain[k]);
                                }
                            }
                        }
                    }
                    r?
                },
                None => {
                    proof {
                        assert forall|c: Seq<Types>, k: int|
                            0 <= k <= names@.len() && c.len() == k + 1 && c[0] == start && #[trigger] plain_path_upto(
                                env,
                                trees@,
                                c,
                                names@,
                                resolving,
                                k,
                            ) implies k < names@.len() && (k == i || c[k].spec_access(trees@, names@[k]@) is Some) by {
                            if k > i {
                                assert(plain_step(env, trees@, current_type, names@[i as int]@, c[i + 1], resolving));
                            } else {
                                assert(c[k] == chain[k]);
                            }
                        }
                    }
                    return Err(EnvError::FieldNotFound(copy_bytes(names[i].as_slice())));
                },
            };
            proof {
                chain = chain.push(next);
                assert(names@.take(i + 1).take(i as int) =~= names@.take(i as int));
                assert forall|j: int| 0 <= j < i + 1 implies #[trigger] path_step(
                    env,
                    trees@,
                    chain[j],
                    names@.take(i + 1)[j]@,
                    chain[j + 1],
                ) by {
                    if j < i {
                        assert(names@.take(i + 1)[j] == names@.take(i as int)[j]);
                        assert(path_step(env, trees@, before[j], names@.take(i as int)[j]@, before[j + 1]));
                    }
                }
                assert forall|c: Seq<Types>, k: int|
                    0 <= k <= i + 1 && c.len() > k && c[0] == start && #[trigger] plain_path_upto(env, trees@, c, names@, resolving, k)
                    implies c[k] == chain[k] && plain_path_upto(env, trees@, chain, names@, resolving, k) by {
                    if k <= i {
                        assert(c[k] == before[k]);
                        assert(plain_path_upto(env, trees@, before, names@, resolving, k));
                        assert forall|j: int| 0 <= j < k implies #[trigger] plain_step(
                            env,
                            trees@,
                            chain[j],
                            names@[j]@,
                            chain[j + 1],
                            resolving,
                        ) by {
                            assert(plain_step(env, trees@, before[j], names@[j]@, before[j + 1], resolving));
                        }
                    } else {
                        assert(plain_path_upto(env, trees@, c, names@, resolving, i as int)) by {
                            assert forall|j: int| 0 <= j < i implies #[trigger] plain_step(
                                env,
                                trees@,
                                c[j],
                                names@[j]@,
                                c[j + 1],
                                resolving,
                            ) by {
                                assert(plain_step(env, trees@, c[j], names@[j]@, c[j + 1], resolving));
                            }
                        }
                        assert(c[i as int] == before[i as int]);
                        assert(plain_step(env, trees@, c[i as int], names@[i as int]@, c[i + 1], resolving));
                        assert forall|j: int| 0 <= j < k implies #[trigger] plain_step(
                            env,
                            trees@,
                            chain[j],
                            names@[j]@,
                            chain[j + 1],
                            resolving,
                        ) by {
                            if j < i {
                                assert(plain_step(env, trees@, before[j], names@[j]@, before[j + 1], resolving));
                            }
                        }
                    }
                }
            }
            current_type = next;
            i = i + 1;
        }
        proof {
            assert(names@.take(names@.len() as int) =~= names@);
            assert forall|c: Seq<Types>, k: int|
                0 <= k <= names@.len() && c.len() == k + 1 && c[0] == start && #[trigger] plain_path_upto(
                    env,
                    trees@,
                    c,
                    names@,
                    resolving,
                    k,
                ) implies c[k] == chain[k] && (k < names@.len() ==> c[k].spec_access(trees@, names@[k]@) is Some) by {}
        }
        Ok(current_type)
    }

    /// The type of a block: that of its last statement, or `Void`.
    fn resolve_block(&mut self, env: &Environment, trees: &Vec<AbstractSyntaxTree>, block: &Block, fuel: usize) -> (res: Result<Types, EnvError>)
        requires
            env.wf(),
        ensures
            res is Ok && (block.statements@.len() == 0 || block.statements@.last() is ConstantDeclaration)
                ==> res == Ok::<Types, EnvError>(Types::Primitive(Primitive::Void)),
            res is Ok ==> forall|i: int|
                0 <= i < block.statements@.len() ==> match #[trigger] block.statements@[i] {
                    Statement::Expression(x) => value_checked(env, x),
                    _ => true,
                },
            (forall|i: int| 0 <= i < block.statements@.len() ==> (#[trigger] immediate_statement_type(block.statements@[i])) is Some)
                ==> res == Ok::<Types, EnvError>(if block.statements@.len() == 0 {
                Types::Primitive(Primitive::Void)
            } else {
                immediate_statement_type(block.statements@.last())->0
            }),
            statements_typed(env, trees@, block.statements@, fuel as nat, stack_keys(old(self).checking_names@), old(self).resolving_constants@)
                ==> res == Ok::<Types, EnvError>(
                block_type(env, trees@, block.statements@, fuel as nat, stack_keys(old(self).checking_names@), old(self).resolving_constants@),
            ) && same_stacks(*final(self), *old(self)),
        decreases fuel, 2nat,
    {
        let mut last = Types::Primitive(Primitive::Void);
        let mut i: usize = 0;
        while i < block.statements.len()
            invariant
                env.wf(),
                i <= block.statements@.len(),
                forall|j: int|
                    0 <= j < i ==> match #[trigger] block.statements@[j] {
                        Statement::Expression(x) => value_checked(env, x),
                        _ => true,
                    },
                i == 0 ==> last == Types::Primitive(Primitive::Void),
                i > 0 && block.statements@[i - 1] is ConstantDeclaration ==> last == Types::Primitive(Primitive::Void),
                i > 0 && immediate_statement_type(block.statements@[i - 1]) is Some ==> last == immediate_statement_type(
                    block.statements@[i - 1],
                )->0,
                statements_typed(env, trees@, block.statements@, fuel as nat, stack_keys(old(self).checking_names@), old(self).resolving_constants@)
                    ==> same_stacks(*self, *old(self)) && (i > 0 ==> match block.statements@[i - 1] {
                    Statement::Expression(x) => last == simple_type(
                        env,
                        trees@,
                        x,
                        fuel as nat,
                        stack_keys(old(self).checking_names@),
                        old(self).resolving_constants@,
                    ),
                    _ => last == Types::Primitive(Primitive::Void),
                }),
            decreases block.statements@.len() - i,
        {
            assert(statements_typed(env, trees@, block.statements@, fuel as nat, stack_keys(old(self).checking_names@), old(self).resolving_constants@)
                ==> match block.statements@[i as int] {
                Statement::Expression(x) => simply_typed(
                    env,
                    trees@,
                    x,
                    fuel as nat,
                    stack_keys(old(self).checking_names@),
                    old(self).resolving_constants@,
                ),
                _ => true,
            });
            assert((forall|j: int| 0 <= j < block.statements@.len() ==> (#[trigger] immediate_statement_type(block.statements@[j])) is Some)
                ==> immediate_statement_type(block.statements@[i as int]) is Some);
            last = match &block.statements[i] {
                Statement::Expression(e) => self.resolve_expression(env, trees, e, fuel)?,
                Statement::ConstantDeclaration(_) => Types::Primitive(Primitive::Void),
            };
            i = i + 1;
        }
        Ok(last)
    }

    /// The type of a struct initialization: the struct named, once its parameters fit its
    /// fields. Where it has content between braces, the content goes to the last field, which
    /// must be a collection of `std.essential.Render`, and the parameters fit the fields
    /// before it; each value of the content can be assigned to `Render`.
    fn resolve_struct_init(
        &mut self,
        env: &Environment,
        trees: &Vec<AbstractSyntaxTree>,
        name: &Name,
        parameters: &[Parameter],
        init_content: Option<&[Expression]>,
        fuel: usize,
    ) -> (res: Result<Types, EnvError>)
        requires
            env.wf(),
        ensures
            res matches Ok(t) ==> spec_resolve_type_name(env, name, false) == Some(Some(t)),
            res is Ok ==> forall|i: int|
                0 <= i < parameters@.len() ==> match #[trigger] parameters@[i] {
                    Parameter::Plain(v) => value_checked(env, v),
                    Parameter::Labelled { content, .. } => value_checked(env, content),
                },
            res is Ok ==> match init_content {
                Some(content) => forall|i: int| 0 <= i < content@.len() ==> value_checked(env, #[trigger] content@[i]),
                None => true,
            },
            init_content is Some ==> (res matches Ok(t) ==> t.spec_fields(trees@).len() > 0 && essential_trait::spec_render(
                env,
            ) matches Ok(Some(_))),
            fuel == 0 ==> res == Err::<Types, EnvError>(EnvError::NestingTooDeep),
            fuel > 0 && spec_resolve_type_name(env, name, false) is None ==> res is Err,
            fuel > 0 && spec_resolve_type_name(env, name, false) == Some(None::<Types>) ==> (res matches Err(
                EnvError::UnresolvableType(_),
            )),
            init_content is None ==> (res matches Ok(t) ==> parameters@.len() <= t.spec_fields(trees@).len() && (parameters@.len()
                == 0 && t.spec_fields(trees@).len() > 0 ==> t.spec_fields(trees@)[0].default_value is Some)),
            init_content is Some ==> (res matches Ok(t) ==> parameters@.len() < t.spec_fields(trees@).len()),
            fuel > 0 && parameters@.len() == 0 ==> (spec_resolve_type_name(env, name, false) matches Some(Some(t))
                ==> t.spec_fields(trees@).len() == 0 ==> if init_content is Some {
                res == Err::<Types, EnvError>(EnvError::InitContent(ContentError::NotExpectingChildren))
            } else {
                res == Ok::<Types, EnvError>(t)
            }),
            init_content is None ==> (res matches Ok(t) ==> parameters@.len() > 0 && parameters@[0] is Labelled ==> labels_supply(
                t.spec_fields(trees@),
                parameters@,
            )),
            init_content is None ==> (res matches Ok(t) ==> parameters@.len() > 0 && !(parameters@[0] is Labelled) ==> exists|m: Seq<int>|
                fills_in_order(t.spec_fields(trees@), parameters@.len(), m)),
        decreases fuel, 1nat,
    {
        if fuel == 0 {
            return Err(EnvError::NestingTooDeep);
        }
        let f = fuel - 1;
        let struct_type = match resolve_type_name(env, name, false)? {
            Some(t) => t,
            None => {
                return Err(EnvError::UnresolvableType(join_path(name.moniker.as_slice())));
            },
        };
        let fields = struct_type.fields(trees);
        let (owner, in_trait) = match struct_type {
            Types::Struct(d) => (d, false),
            Types::Trait(d) => (d, true),
            _ => (DeclId { tree: 0, index: 0 }, false),
        };
        let mut field_types: Vec<Types> = Vec::new();
        let mut i: usize = 0;
        while i < fields.len()
            invariant
                env.wf(),
                f + 1 == fuel,
                field_types@.len() == i,
                i <= fields@.len(),
                spec_resolve_type_name(env, name, false) == Some(Some(struct_type)),
                fields@ == struct_type.spec_fields(trees@),
            decreases fields@.len() - i,
        {
            field_types.push(self.resolve_field(env, trees, FieldId { owner, in_trait, index: i }, f)?);
            i = i + 1;
        }
        let mut parameter_types: Vec<Types> = Vec::new();
        let mut j: usize = 0;
        while j < parameters.len()
            invariant
                env.wf(),
                f + 1 == fuel,
                parameter_types@.len() == j,
                j <= parameters@.len(),
                spec_resolve_type_name(env, name, false) == Some(Some(struct_type)),
                forall|i: int|
                    0 <= i < j ==> match #[trigger] parameters@[i] {
                        Parameter::Plain(v) => value_checked(env, v),
                        Parameter::Labelled { content, .. } => value_checked(env, content),
                    },
            decreases parameters@.len() - j,
        {
            parameter_types.push(self.resolve_expression(env, trees, parameters[j].expression(), f)?);
            j = j + 1;
        }
        match init_content {
            None => {
                self.check_parameters(env, trees, parameters, &parameter_types, fields, &field_types, f)?;
                proof {
                    if parameters@.len() > 0 && parameters@[0] is Labelled {
                        assert forall|j: int| 0 <= j < fields@.len() && (#[trigger] fields@[j]).default_value is None implies exists|i: int|
                            0 <= i < parameters@.len() && #[trigger] label_of(parameters@[i]) == Some(fields@[j].name@) by {
                            lemma_label_type_found(
                                parameters@,
                                parameter_types@,
                                min_len(parameters@.len(), parameter_types@.len()),
                                fields@[j].name@,
                            );
                        }
                    }
                    if parameters@.len() > 0 && !(parameters@[0] is Labelled) {
                        let m = choose|m: Seq<int>| plain_matching(env, trees@, fields@, field_types@, parameter_types@, m);
                        assert(fills_in_order(fields@, parameters@.len(), m));
                    }
                }
                Ok(struct_type)
            },
            Some(content) => {
                if fields.len() == 0 {
                    return Err(EnvError::InitContent(ContentError::NotExpectingChildren));
                }
                let render = match essential_trait::render(env)? {
                    Some(r) => r,
                    None => {
                        return Err(EnvError::InitContent(ContentError::LastFieldIsNotChildren));
                    },
                };
                let last = fields.len() - 1;
                if field_types[last] != render.collection_type() {
                    return Err(EnvError::InitContent(ContentError::LastFieldIsNotChildren));
                }
                let mut leading_types: Vec<Types> = Vec::new();
                let mut m: usize = 0;
                while m < last
                    invariant
                        last < field_types@.len(),
                        m <= last,
                    decreases last - m,
                {
                    leading_types.push(field_types[m]);
                    m = m + 1;
                }
                let leading_fields = vstd::slice::slice_subrange(fields, 0, last);
                self.check_parameters(env, trees, parameters, &parameter_types, leading_fields, &leading_types, f)?;
                let mut k: usize = 0;
                while k < content.len()
                    invariant
                        env.wf(),
                        f + 1 == fuel,
                        k <= content@.len(),
                        spec_resolve_type_name(env, name, false) == Some(Some(struct_type)),
                        fields@ == struct_type.spec_fields(trees@),
                        fields@.len() > 0,
                        forall|i: int| 0 <= i < k ==> value_checked(env, #[trigger] content@[i]),
                    decreases content@.len() - k,
                {
                    let content_type = self.resolve_expression(env, trees, &content[k], f)?;
                    if !self.assignable(env, trees, content_type, render, f)? {
                        return Err(EnvError::InitContent(ContentError::InitContentNotRender(display_type(trees, content_type))));
                    }
                    k = k + 1;
                }
                Ok(struct_type)
            },
        }
    }

    /// Checks the parameters of a struct initialization against the fields, each parameter
    /// assignable to its field: by label where the first parameter has one, in order where it
    /// has none.
    fn check_parameters(
        &mut self,
        env: &Environment,
        trees: &Vec<AbstractSyntaxTree>,
        parameters: &[Parameter],
        parameter_types: &Vec<Types>,
        fields: &[Field],
        field_types: &Vec<Types>,
        fuel: usize,
    ) -> (res: Result<(), EnvError>)
        requires
            env.wf(),
        ensures
            parameters@.len() > fields@.len() ==> res == Err::<(), EnvError>(
                EnvError::StructInit(InitError::TooManyField { expected: fields@.len() as usize, found: parameters@.len() as usize }),
            ),
            parameters@.len() == 0 && fields@.len() == 0 ==> res == Ok::<(), EnvError>(()),
            parameters@.len() == 0 && fields@.len() > 0 ==> if fields@[0].default_value is Some {
                res == Ok::<(), EnvError>(())
            } else {
                res matches Err(EnvError::StructInit(InitError::FieldNotSupplied(n))) && n@ == fields@[0].name@
            },
            parameters@.len() > 0 && parameters@.len() <= fields@.len() && parameters@[0] is Labelled && (exists|i: int|
                0 <= i < parameters@.len() && i < parameter_types@.len() && (#[trigger] parameters@[i]) is Plain)
                ==> res == Err::<(), EnvError>(EnvError::MixedParameters),
            res is Ok && parameters@.len() > 0 && parameters@[0] is Labelled && field_types@.len() == fields@.len() ==> forall|j: int|
                0 <= j < fields@.len() ==> (#[trigger] fields@[j]).default_value is Some || (label_type(
                    parameters@,
                    parameter_types@,
                    min_len(parameters@.len(), parameter_types@.len()),
                    fields@[j].name@,
                ) matches Some(t) && assignable_shape(env, trees@, t, field_types@[j])),
            res is Ok && parameters@.len() > 0 && !(parameters@[0] is Labelled) ==> exists|m: Seq<int>|
                plain_matching(env, trees@, fields@, field_types@, parameter_types@, m),
            labels_fit(env, trees@, fields@, field_types@, parameters@, parameter_types@, fuel as nat, old(self).checking_conformance@)
                ==> res == Ok::<(), EnvError>(()),
            plain_parameters_fit(env, trees@, fields@, field_types@, parameters@, parameter_types@, fuel as nat, old(self).checking_conformance@)
                ==> res == Ok::<(), EnvError>(()),
        decreases fuel, 3nat,
    {
        if parameters.len() > fields.len() {
            return Err(EnvError::StructInit(InitError::TooManyField { expected: fields.len(), found: parameters.len() }));
        }
        if parameters.len() == 0 {
            if fields.len() == 0 || fields[0].default_value.is_some() {
                return Ok(());
            }
            return Err(EnvError::StructInit(InitError::FieldNotSupplied(copy_bytes(fields[0].name.as_slice()))));
        }
        let len = if fields.len() < field_types.len() { fields.len() } else { field_types.len() };
        if parameters[0].is_labelled() {
            let mut labels: Table<Ident, Types> = Table::new();
            let mut i: usize = 0;
            while i < parameters.len() && i < parameter_types.len()
                invariant
                    0 < parameters@.len() <= fields@.len(),
                    parameters@[0] is Labelled,
                    i <= parameters@.len(),
                    i <= parameter_types@.len(),
                    forall|k: int| 0 <= k < i ==> (#[trigger] parameters@[k]) is Labelled,
                    forall|k: Seq<u8>| #[trigger] labels.get_spec(k) == label_type(parameters@, parameter_types@, i as int, k),
                decreases parameters@.len() - i,
            {
                match &parameters[i] {
                    Parameter::Labelled { label, .. } => {
                        labels.insert(copy_bytes(label.as_slice()), parameter_types[i]);
                    },
                    Parameter::Plain(_) => {
                        return Err(EnvError::MixedParameters);
                    },
                }
                i = i + 1;
            }
            let ghost fits = labels_fit(env, trees@, fields@, field_types@, parameters@, parameter_types@, fuel as nat, old(self).checking_conformance@);
            let mut j: usize = 0;
            while j < len
                invariant
                    env.wf(),
                    len <= fields@.len(),
                    len <= field_types@.len(),
                    0 < parameters@.len() <= fields@.len(),
                    parameters@[0] is Labelled,
                    forall|k: int| 0 <= k < parameters@.len() && k < parameter_types@.len() ==> (#[trigger] parameters@[k]) is Labelled,
                    forall|k: Seq<u8>| #[trigger] labels.get_spec(k) == label_type(
                        parameters@,
                        parameter_types@,
                        min_len(parameters@.len(), parameter_types@.len()),
                        k,
                    ),
                    j <= len,
                    len == min_len(fields@.len(), field_types@.len()),
                    forall|m: int|
                        0 <= m < j ==> (#[trigger] fields@[m]).default_value is Some || (label_type(
                            parameters@,
                            parameter_types@,
                            min_len(parameters@.len(), parameter_types@.len()),
                            fields@[m].name@,
                        ) matches Some(t) && assignable_shape(env, trees@, t, field_types@[m])),
                    fits ==> self.checking_conformance@ == old(self).checking_conformance@,
                    fits == labels_fit(env, trees@, fields@, field_types@, parameters@, parameter_types@, fuel as nat, old(self).checking_conformance@),
                    fits ==> len == fields@.len(),
                decreases len - j,
            {
                let field = &fields[j];
                proof {
                    if fits {
                        assert(fields@[j as int] == *field);
                    }
                }
                match labels.get(&field.name) {
                    Some(parameter_type) => {
                        if !self.assignable(env, trees, *parameter_type, field_types[j], fuel)? {
                            return Err(EnvError::StructInit(InitError::TypeMismatch {
                                field: copy_bytes(field.name.as_slice()),
                                expected: display_type(trees, field_types[j]),
                                found: display_type(trees, *parameter_type),
                            }));
                        }
                    },
                    None => {
                        if field.default_value.is_none() {
                            return Err(EnvError::StructInit(InitError::FieldNotSupplied(copy_bytes(field.name.as_slice()))));
                        }
                    },
                }
                j = j + 1;
            }
            Ok(())
        } else {
            let mut next: usize = 0;
            let mut j: usize = 0;
            let ghost mut m: Seq<int> = Seq::empty();
            let ghost fits = plain_parameters_fit(env, trees@, fields@, field_types@, parameters@, parameter_types@, fuel as nat, old(self).checking_conformance@);
            while j < len
                invariant
                    env.wf(),
                    len <= fields@.len(),
                    len <= field_types@.len(),
                    next <= parameter_types@.len(),
                    0 < parameters@.len() <= fields@.len(),
                    !(parameters@[0] is Labelled),
                    j <= len,
                    m.len() == next,
                    forall|i: int|
                        0 <= i < m.len() ==> 0 <= #[trigger] m[i] < j && assignable_shape(
                            env,
                            trees@,
                            parameter_types@[i],
                            field_types@[m[i]],
                        ),
                    forall|i: int, k: int| 0 <= i < k < m.len() ==> #[trigger] m[i] < #[trigger] m[k],
                    forall|jj: int| 0 <= jj < j && !m.contains(jj) ==> (#[trigger] fields@[jj]).default_value is Some,
                    fits == plain_parameters_fit(env, trees@, fields@, field_types@, parameters@, parameter_types@, fuel as nat, old(self).checking_conformance@),
                    fits ==> self.checking_conformance@ == old(self).checking_conformance@ && next == j && len == fields@.len(),
                decreases len - j,
            {
                let field = &fields[j];
                if next == parameter_types.len() {
                    proof {
                        assert(plain_matching(env, trees@, fields@, field_types@, parameter_types@, m));
                    }
                    return match field.default_value {
                        Some(_) => Ok(()),
                        None => Err(EnvError::StructInit(InitError::FieldNotSupplied(copy_bytes(field.name.as_slice())))),
                    };
                } else if self.assignable(env, trees, parameter_types[next], field_types[j], fuel)? {
                    proof {
                        let m0 = m;
                        m = m.push(j as int);
                        assert forall|jj: int| 0 <= jj < j + 1 && !m.contains(jj) implies (#[trigger] fields@[jj]).default_value is Some by {
                            if jj < j && m0.contains(jj) {
                                let i = choose|i: int| 0 <= i < m0.len() && m0[i] == jj;
                                assert(m[i] == jj);
                            }
                            if jj == j {
                                assert(m[m.len() - 1] == jj);
                            }
                        }
                    }
                    next = next + 1;
                } else if field.default_value.is_none() {
                    return Err(EnvError::StructInit(InitError::TypeMismatch {
                        field: copy_bytes(field.name.as_slice()),
                        expected: display_type(trees, field_types[j]),
                        found: display_type(trees, parameter_types[next]),
                    }));
                }
                j = j + 1;
            }
            if next == parameter_types.len() {
                proof {
                    assert(plain_matching(env, trees@, fields@, field_types@, parameter_types@, m));
                }
                Ok(())
            } else {
                Err(EnvError::UnmatchedParameters)
            }
        }
    }

    /// The type of the receiver of chaining methods, once each method names a field of it
    /// and its argument fits the field, or the field has a default value where the
    /// argument is missing.
    fn resolve_chaining_method(
        &mut self,
        env: &Environment,
        trees: &Vec<AbstractSyntaxTree>,
        receiver: &Expression,
        accessors: &[Accessor],
        fuel: usize,
    ) -> (res: Result<Types, EnvError>)
        requires
            env.wf(),
        ensures
            res matches Ok(t) ==> forall|k: int|
                0 <= k < accessors@.len() ==> (t.spec_field(trees@, (#[trigger] accessors@[k]).identifier@) matches Some(f)
                    && (accessors@[k].value is None ==> field_has_default(trees@, f))),
            res is Ok ==> value_checked(env, *receiver),
            res is Ok ==> forall|k: int|
                0 <= k < accessors@.len() ==> match #[trigger] accessors@[k].value {
                    Some(v) => value_checked(env, v),
                    None => true,
                },
            immediate_type(*receiver) matches Some(t) ==> (res matches Ok(u) ==> u == t),
            immediate_type(*receiver) matches Some(t) ==> (accessors@.len() == 0 ==> res == Ok::<Types, EnvError>(t)),
            *receiver matches Expression::StructInit { name, .. } ==> (res matches Ok(t) ==> spec_resolve_type_name(env, &name, false)
                == Some(Some(t))),
        decreases fuel, 4nat,
    {
        let receiver_type = self.resolve_expression(env, trees, receiver, fuel)?;
        let mut i: usize = 0;
        while i < accessors.len()
            invariant
                env.wf(),
                i <= accessors@.len(),
                value_checked(env, *receiver),
                forall|k: int|
                    0 <= k < i ==> match #[trigger] accessors@[k].value {
                        Some(v) => value_checked(env, v),
                        None => true,
                    },
                forall|k: int|
                    0 <= k < i ==> (receiver_type.spec_field(trees@, (#[trigger] accessors@[k]).identifier@) matches Some(f)
                        && (accessors@[k].value is None ==> field_has_default(trees@, f))),
            decreases accessors@.len() - i,
        {
            let accessor = &accessors[i];
            let field = match receiver_type.field(trees, accessor.identifier.as_slice()) {
                Some(f) => f,
                None => {
                    return Err(EnvError::FieldNotFound(copy_bytes(accessor.identifier.as_slice())));
                },
            };
            let field_type = self.resolve_field(env, trees, field, fuel)?;
            match &accessor.value {
                Some(value) => {
                    let argument_type = self.resolve_expression(env, trees, value, fuel)?;
                    if !self.assignable(env, trees, argument_type, field_type, fuel)? {
                        return Err(EnvError::TypeMismatch {
                            expected: display_type(trees, field_type),
                            found: display_type(trees, argument_type),
                        });
                    }
                },
                None => {
                    let declaration = field_of(trees, field)?;
                    if declaration.default_value.is_none() {
                        return Err(EnvError::NoDefaultValue(copy_bytes(declaration.name.as_slice())));
                    }
                },
            }
            i = i + 1;
        }
        Ok(receiver_type)
    }

    /// The declared type of a field, once its default value, if any, fits it.
    fn resolve_field(&mut self, env: &Environment, trees: &Vec<AbstractSyntaxTree>, field: FieldId, fuel: usize) -> (res: Result<Types, EnvError>)
        requires
            env.wf(),
        ensures
            res matches Ok(t) ==> field_names_type(env, trees@, field, t),
            !field_exists(trees@, field) ==> res == Err::<Types, EnvError>(EnvError::InvalidState),
            field_exists(trees@, field) && old(self).resolving_fields@.contains(field) ==> (res matches Err(
                EnvError::CycleReference(n),
            ) && n@ == spec_field_of(trees@, field).name@),
            field_exists(trees@, field) && !old(self).resolving_fields@.contains(field) && spec_field_of(
                trees@,
                field,
            ).default_value is None ==> match spec_resolve_type_name(
                env,
                &spec_field_of(trees@, field).field_type.name,
                spec_field_of(trees@, field).field_type.is_collection,
            ) {
                Some(Some(t)) => res == Ok::<Types, EnvError>(t) && same_stacks(*final(self), *old(self)),
                Some(None) => res matches Err(EnvError::UnresolvableType(_)),
                None => res is Err,
            },
        decreases fuel, 3nat,
    {
        let declaration = field_of(trees, field)?;
        if field_in(&self.resolving_fields, field) {
            return Err(EnvError::CycleReference(copy_bytes(declaration.name.as_slice())));
        }
        let ghost before_push = self.resolving_fields@;
        self.resolving_fields.push(field);
        let expected_type = match resolve_type_name(env, &declaration.field_type.name, declaration.field_type.is_collection)? {
            Some(t) => t,
            None => {
                return Err(EnvError::UnresolvableType(join_path(declaration.field_type.name.moniker.as_slice())));
            },
        };
        match &declaration.default_value {
            Some(default_value) => {
                let value_type = self.resolve_expression(env, trees, default_value, fuel)?;
                if !self.assignable(env, trees, value_type, expected_type, fuel)? {
                    return Err(EnvError::TypeMismatch {
                        expected: display_type(trees, expected_type),
                        found: display_type(trees, value_type),
                    });
                }
            },
            None => {},
        }
        let ghost pushed = self.resolving_fields@;
        self.resolving_fields.pop();
        proof {
            if declaration.default_value is None {
                assert(pushed == before_push.push(field));
                assert(self.resolving_fields@ =~= before_push);
            }
        }
        Ok(expected_type)
    }

    /// The type reached from an expression through a path of fields and attributes.
    fn resolve_field_access(
        &mut self,
        env: &Environment,
        trees: &Vec<AbstractSyntaxTree>,
        receiver: &Expression,
        names: &[Ident],
        fuel: usize,
    ) -> (res: Result<Types, EnvError>)
        requires
            env.wf(),
        ensures
            res is Ok ==> value_checked(env, *receiver),
            immediate_type(*receiver) matches Some(t) ==> (names@.len() == 0 ==> res == Ok::<Types, EnvError>(t)),
            res matches Ok(t) ==> exists|chain: Seq<Types>|
                #[trigger] path_chain(env, trees@, chain, names@) && expression_type_fits(env, trees@, *receiver, chain[0])
                    && chain.last() == t,
        decreases fuel, 5nat,
    {
        let receiver_type = self.resolve_expression(env, trees, receiver, fuel)?;
        proof {
            assert(plain_path_upto(env, trees@, seq![receiver_type], names@, self.resolving_fields@, 0));
        }
        self.follow_path(env, trees, receiver_type, names, fuel)
    }

    /// Whether a value of the source type can be assigned where the target type is
    /// expected: the same type; `Void` for a collection; a type that conforms to the target
    /// trait; or a type of `std.essential.Render` for a trait of `std.essential`.
    pub fn assignable(&mut self, env: &Environment, trees: &Vec<AbstractSyntaxTree>, source: Types, target: Types, fuel: usize) -> (res: Result<bool, EnvError>)
        requires
            env.wf(),
        ensures
            source == target ==> res == Ok::<bool, EnvError>(true),
            empty_assignability(source, target) ==> res == Ok::<bool, EnvError>(true),
            res == Ok::<bool, EnvError>(true) ==> source == target || empty_assignability(source, target) || (target is Trait
                && has_trait_fields(trees@, source, target)) || (spec_in_essential(env, trees@, target)
                && spec_in_essential_render(env, trees@, source)),
            res == Ok::<bool, EnvError>(false) ==> source != target && !empty_assignability(source, target) && !render_fits(
                env,
                trees@,
                source,
                target,
            ),
            source != target && !empty_assignability(source, target) && !(target is Trait) ==> res == Ok::<bool, EnvError>(
                render_fits(env, trees@, source, target),
            ),
            source != target && !empty_assignability(source, target) && target is Trait && fuel > 0
                && !old(self).checking_conformance@.contains((source, target)) && fields_match_exactly(env, trees@, source, target)
                ==> res == Ok::<bool, EnvError>(true),
            fits_by_fields(env, trees@, source, target, fuel as nat, old(self).checking_conformance@) ==> res == Ok::<
                bool,
                EnvError,
            >(true) && final(self).checking_conformance@ == old(self).checking_conformance@,
        decreases fuel, 2nat,
    {
        if source == target || Self::empty_assignability(source, target) {
            return Ok(true);
        }
        match target {
            Types::Trait(_) => {
                if self.conforms_to_trait(env, trees, source, target, fuel)? {
                    return Ok(true);
                }
            },
            _ => {},
        }
        Ok(RenderImplChecker { environment: env, syntax_trees: trees }.check(&source, &target))
    }

    /// Whether the source is `Void` and the target a collection.
    pub fn empty_assignability(source: Types, target: Types) -> (r: bool)
        ensures
            r == empty_assignability(source, target),
    {
        source == Types::Primitive(Primitive::Void) && match target {
            Types::PrimitiveCollection(_) | Types::StructCollection(_) | Types::TraitCollection(_) => true,
            _ => false,
        }
    }

    /// Whether the source has every field that the trait requires, under the same name and
    /// with a type assignable to the required one.
    fn conforms_to_trait(&mut self, env: &Environment, trees: &Vec<AbstractSyntaxTree>, source: Types, trait_type: Types, fuel: usize) -> (res: Result<bool, EnvError>)
        requires
            env.wf(),
        ensures
            res == Ok::<bool, EnvError>(true) ==> has_trait_fields(trees@, source, trait_type),
            fuel == 0 ==> res == Err::<bool, EnvError>(EnvError::NestingTooDeep),
            fuel > 0 && old(self).checking_conformance@.contains((source, trait_type)) ==> (res matches Err(
                EnvError::CycleReference(_),
            )),
            fuel > 0 && !old(self).checking_conformance@.contains((source, trait_type)) && trait_type.spec_fields(trees@).len()
                == 0 ==> res == Ok::<bool, EnvError>(true),
            res == Ok::<bool, EnvError>(true) ==> forall|i: int|
                0 <= i < trait_type.spec_fields(trees@).len() ==> field_fits(
                    env,
                    trees@,
                    source,
                    #[trigger] trait_type.spec_fields(trees@)[i],
                ),
            res == Ok::<bool, EnvError>(false) ==> exists|i: int|
                0 <= i < trait_type.spec_fields(trees@).len() && field_misses(
                    env,
                    trees@,
                    source,
                    #[trigger] trait_type.spec_fields(trees@)[i],
                ),
            fuel > 0 && !old(self).checking_conformance@.contains((source, trait_type)) && fields_match_exactly(
                env,
                trees@,
                source,
                trait_type,
            ) ==> res == Ok::<bool, EnvError>(true),
            fits_trait(env, trees@, source, trait_type, fuel as nat, old(self).checking_conformance@) ==> res == Ok::<
                bool,
                EnvError,
            >(true) && final(self).checking_conformance@ == old(self).checking_conformance@,
        decreases fuel, 1nat,
    {
        if fuel == 0 {
            return Err(EnvError::NestingTooDeep);
        }
        let f = fuel - 1;
        let ghost fits = fits_trait(env, trees@, source, trait_type, fuel as nat, old(self).checking_conformance@);
        if pair_in(&self.checking_conformance, source, trait_type) {
            return Err(EnvError::CycleReference(display_type(trees, source)));
        }
        self.checking_conformance.push((source, trait_type));
        let required = trait_type.fields(trees);
        let mut i: usize = 0;
        while i < required.len()
            invariant
                env.wf(),
                f + 1 == fuel,
                required@ == trait_type.spec_fields(trees@),
                i <= required@.len(),
                !old(self).checking_conformance@.contains((source, trait_type)),
                forall|m: int| 0 <= m < i ==> source.spec_access(trees@, (#[trigger] required@[m]).name@) is Some,
                forall|m: int| 0 <= m < i ==> field_fits(env, trees@, source, #[trigger] required@[m]),
                fits == fits_trait(env, trees@, source, trait_type, fuel as nat, old(self).checking_conformance@),
                fits ==> self.checking_conformance@ == old(self).checking_conformance@.push((source, trait_type)),
            decreases required@.len() - i,
        {
            let field = &required[i];
            proof {
                if fits {
                    assert(trait_type.spec_fields(trees@)[i as int] == required@[i as int]);
                    assert(f as nat == (fuel - 1) as nat);
                }
            }
            proof {
                if fields_match_exactly(env, trees@, source, trait_type) {
                    assert(trait_type.spec_fields(trees@)[i as int] == required@[i as int]);
                }
            }
            let expected_type = match resolve_type_name(env, &field.field_type.name, field.field_type.is_collection)? {
                Some(t) => t,
                None => {
                    return Err(EnvError::UnresolvableType(join_path(field.field_type.name.moniker.as_slice())));
                },
            };
            assert(field_type_of(env, *field) == Some(Some(expected_type)));
            let ghost access = source.spec_access(trees@, field.name@);
            let found_type = match source.access(trees, field.name.as_slice()) {
                Some(TypedElement::Field(found)) => {
                    let found_field = field_of(trees, found)?;
                    match resolve_type_name(env, &found_field.field_type.name, found_field.field_type.is_collection)? {
                        Some(t) => {
                            assert(field_type_of(env, spec_field_of(trees@, found)) == Some(Some(t)));
                            t
                        },
                        None => {
                            return Err(EnvError::UnresolvableType(join_path(found_field.field_type.name.moniker.as_slice())));
                        },
                    }
                },
                Some(TypedElement::Constant(constant)) => self.resolve_constant_value(env, trees, constant, f)?,
                None => {
                    assert(field_misses(env, trees@, source, required@[i as int]));
                    self.checking_conformance.pop();
                    return Ok(false);
                },
            };
            let ok = self.assignable(env, trees, found_type, expected_type, f)?;
            if !ok {
                assert(field_misses(env, trees@, source, required@[i as int]));
                self.checking_conformance.pop();
                return Ok(false);
            }
            assert(field_fits(env, trees@, source, required@[i as int]));
            i = i + 1;
        }
        self.checking_conformance.pop();
        proof {
            if fits {
                assert(self.checking_conformance@ =~= old(self).checking_conformance@);
            }
        }
        Ok(true)
    }

    /// Whether the source is the target, or has every field that the target trait
    /// requires, under the same name and with the same type.
    pub fn conforms(&mut self, env: &Environment, trees: &Vec<AbstractSyntaxTree>, source: Types, target: Types, fuel: usize) -> (res: Result<bool, EnvError>)
        requires
            env.wf(),
        ensures
            source == target ==> res == Ok::<bool, EnvError>(true),
            source != target && !(target is Trait) ==> res == Ok::<bool, EnvError>(false),
            res == Ok::<bool, EnvError>(true) && source != target ==> has_trait_fields(trees@, source, target),
            res == Ok::<bool, EnvError>(true) && source != target ==> forall|i: int|
                0 <= i < target.spec_fields(trees@).len() ==> field_same(
                    env,
                    trees@,
                    source,
                    #[trigger] target.spec_fields(trees@)[i],
                ),
            source != target && target is Trait && fuel == 0 ==> res == Err::<bool, EnvError>(EnvError::NestingTooDeep),
            source != target && target is Trait && fuel > 0 && fields_match_exactly(env, trees@, source, target)
                ==> res == Ok::<bool, EnvError>(true),
        decreases fuel, 1nat,
    {
        if source == target {
            return Ok(true);
        }
        match target {
            Types::Trait(_) => {},
            _ => {
                return Ok(false);
            },
        }
        if fuel == 0 {
            return Err(EnvError::NestingTooDeep);
        }
        let f = fuel - 1;
        let required = target.fields(trees);
        let mut i: usize = 0;
        while i < required.len()
            invariant
                env.wf(),
                f + 1 == fuel,
                source != target,
                target is Trait,
                required@ == target.spec_fields(trees@),
                i <= required@.len(),
                forall|m: int| 0 <= m < i ==> source.spec_access(trees@, (#[trigger] required@[m]).name@) is Some,
                forall|m: int| 0 <= m < i ==> field_same(env, trees@, source, #[trigger] required@[m]),
            decreases required@.len() - i,
        {
            let field = &required[i];
            proof {
                if fields_match_exactly(env, trees@, source, target) {
                    assert(target.spec_fields(trees@)[i as int] == required@[i as int]);
                }
            }
            let expected_type = match resolve_type_name(env, &field.field_type.name, field.field_type.is_collection)? {
                Some(t) => t,
                None => {
                    return Err(EnvError::UnresolvableType(join_path(field.field_type.name.moniker.as_slice())));
                },
            };
            assert(field_type_of(env, *field) == Some(Some(expected_type)));
            let found_type = match source.access(trees, field.name.as_slice()) {
                Some(TypedElement::Field(found)) => {
                    let found_field = field_of(trees, found)?;
                    match resolve_type_name(env, &found_field.field_type.name, found_field.field_type.is_collection)? {
                        Some(t) => {
                            assert(field_type_of(env, spec_field_of(trees@, found)) == Some(Some(t)));
                            t
                        },
                        None => {
                            return Err(EnvError::UnresolvableType(join_path(found_field.field_type.name.moniker.as_slice())));
                        },
                    }
                },
                Some(TypedElement::Constant(constant)) => self.resolve_constant_value(env, trees, constant, f)?,
                None => {
                    return Ok(false);
                },
            };
            if found_type != expected_type {
                return Ok(false);
            }
            assert(field_same(env, trees@, source, required@[i as int]));
            i = i + 1;
        }
        Ok(true)
    }

    /// Checks one declaration: the value of a constant, the fields and attributes of a
    /// struct, the requirements of a trait.
    fn resolve_declaration(&mut self, env: &Environment, trees: &Vec<AbstractSyntaxTree>, tree: usize, declaration: &Declaration) -> (res: Result<(), EnvError>)
        requires
            env.wf(),
        ensures
            res is Ok ==> declaration_checked(env, trees@, tree as int, *declaration),
            checks_at_once(trees@, tree as int, *declaration) ==> res is Ok,
            *declaration matches Declaration::Struct(s) && !(tree < trees@.len() && s < trees@[tree as int].structs@.len())
                ==> res == Err::<(), EnvError>(EnvError::InvalidState),
            *declaration matches Declaration::Trait(t) && !(tree < trees@.len() && t < trees@[tree as int].traits@.len())
                ==> res == Err::<(), EnvError>(EnvError::InvalidState),
            *declaration matches Declaration::Constant(c) ==> ({
                let d = DeclId { tree, index: c };
                &&& !constant_exists(trees@, d) ==> res is Err
                &&& constant_exists(trees@, d) && !old(self).resolving_constants@.contains(d) && immediate_type(
                    trees@[tree as int].constants@[c as int].value,
                ) is Some ==> res is Ok
            }),
            checks_at_once(trees@, tree as int, *declaration) ==> same_stacks(*final(self), *old(self)),
            cyclic_constant(env, trees@, tree as int, *declaration) ==> res is Err,
            *declaration matches Declaration::Constant(c) && constant_typed_at(
                env,
                trees@,
                DeclId { tree, index: c },
                stack_keys(old(self).checking_names@),
                old(self).resolving_constants@,
            ) ==> res is Ok && same_stacks(*final(self), *old(self)),
    {
        match declaration {
            Declaration::Constant(c) => {
                proof {
                    if cyclic_constant(env, trees@, tree as int, *declaration) {
                        lemma_use_chain_cycles_grows(
                            env,
                            trees@,
                            DeclId { tree, index: *c },
                            Seq::empty(),
                            self.resolving_constants@,
                            MAX_NESTING as nat,
                        );
                    }
                }
                self.resolve_constant_value(env, trees, DeclId { tree, index: *c }, MAX_NESTING)?;
                Ok(())
            },
            Declaration::Struct(s) => {
                if tree >= trees.len() || *s >= trees[tree].structs.len() {
                    return Err(EnvError::InvalidState);
                }
                let structure = &trees[tree].structs[*s];
                let mut i: usize = 0;
                while i < structure.fields.len()
                    invariant
                        env.wf(),
                        tree < trees@.len(),
                        *s < trees@[tree as int].structs@.len(),
                        *structure == trees@[tree as int].structs@[*s as int],
                        *declaration == Declaration::Struct(*s),
                        i <= structure.fields@.len(),
                        forall|k: int| 0 <= k < i ==> field_checked(env, #[trigger] structure.fields@[k]),
                        structure.fields@.len() == 0 ==> same_stacks(*self, *old(self)),
                    decreases structure.fields@.len() - i,
                {
                    self.resolve_field(env, trees, FieldId { owner: DeclId { tree, index: *s }, in_trait: false, index: i }, MAX_NESTING)?;
                    i = i + 1;
                }
                match &structure.body {
                    Some(body) => {
                        let mut j: usize = 0;
                        while j < body.attributes.len()
                            invariant
                                env.wf(),
                                tree < trees@.len(),
                                *s < trees@[tree as int].structs@.len(),
                                *structure == trees@[tree as int].structs@[*s as int],
                                *declaration == Declaration::Struct(*s),
                                forall|k: int| 0 <= k < structure.fields@.len() ==> field_checked(
                                    env,
                                    #[trigger] structure.fields@[k],
                                ),
                                structure.body == Some(*body),
                                j <= body.attributes@.len(),
                                structure.fields@.len() == 0 && body.attributes@.len() == 0 ==> same_stacks(*self, *old(self)),
                                forall|k: int|
                                    0 <= k < j ==> constant_checked(env, trees@, tree as int, #[trigger] body.attributes@[k] as int),
                            decreases body.attributes@.len() - j,
                        {
                            self.resolve_constant_value(env, trees, DeclId { tree, index: body.attributes[j] }, MAX_NESTING)?;
                            j = j + 1;
                        }
                    },
                    None => {},
                }
                Ok(())
            },
            Declaration::Trait(t) => {
                if tree >= trees.len() || *t >= trees[tree].traits.len() {
                    return Err(EnvError::InvalidState);
                }
                let required_by = &trees[tree].traits[*t];
                let mut i: usize = 0;
                while i < required_by.required.len()
                    invariant
                        env.wf(),
                        tree < trees@.len(),
                        *t < trees@[tree as int].traits@.len(),
                        *required_by == trees@[tree as int].traits@[*t as int],
                        *declaration == Declaration::Trait(*t),
                        i <= required_by.required@.len(),
                        forall|k: int| 0 <= k < i ==> field_checked(env, #[trigger] required_by.required@[k]),
                        required_by.required@.len() == 0 ==> same_stacks(*self, *old(self)),
                    decreases required_by.required@.len() - i,
                {
                    self.resolve_field(env, trees, FieldId { owner: DeclId { tree, index: *t }, in_trait: true, index: i }, MAX_NESTING)?;
                    i = i + 1;
                }
                Ok(())
            },
            Declaration::Import(_) => Ok(()),
        }
    }
}

/// The source has, under its name, a field or attribute for every field of the trait.
pub open spec fn has_trait_fields(trees: Seq<AbstractSyntaxTree>, source: Types, trait_type: Types) -> bool {
    forall|i: int|
        0 <= i < trait_type.spec_fields(trees).len() ==> source.spec_access(trees, (#[trigger] trait_type.spec_fields(trees)[i]).name@)
            is Some
}

/// The field that the id names has a default value.
pub open spec fn field_has_default(trees: Seq<AbstractSyntaxTree>, field: FieldId) -> bool {
    let d = field.owner;
    &&& d.tree < trees.len()
    &&& if field.in_trait {
        &&& d.index < trees[d.tree as int].traits@.len()
        &&& field.index < trees[d.tree as int].traits@[d.index as int].required@.len()
        &&& trees[d.tree as int].traits@[d.index as int].required@[field.index as int].default_value is Some
    } else {
        &&& d.index < trees[d.tree as int].structs@.len()
        &&& field.index < trees[d.tree as int].structs@[d.index as int].fields@.len()
        &&& trees[d.tree as int].structs@[d.index as int].fields@[field.index as int].default_value is Some
    }
}

/// The field that the id names has a declared type, and it is `t`.
pub open spec fn field_names_type(env: &Environment, trees: Seq<AbstractSyntaxTree>, field: FieldId, t: Types) -> bool {
    let d = field.owner;
    &&& d.tree < trees.len()
    &&& if field.in_trait {
        &&& d.index < trees[d.tree as int].traits@.len()
        &&& field.index < trees[d.tree as int].traits@[d.index as int].required@.len()
        &&& {
            let f = trees[d.tree as int].traits@[d.index as int].required@[field.index as int];
            &&& spec_resolve_type_name(env, &f.field_type.name, f.field_type.is_collection) == Some(Some(t))
            &&& f.default_value matches Some(v) ==> value_checked(env, v)
        }
    } else {
        &&& d.index < trees[d.tree as int].structs@.len()
        &&& field.index < trees[d.tree as int].structs@[d.index as int].fields@.len()
        &&& {
            let f = trees[d.tree as int].structs@[d.index as int].fields@[field.index as int];
            &&& spec_resolve_type_name(env, &f.field_type.name, f.field_type.is_collection) == Some(Some(t))
            &&& f.default_value matches Some(v) ==> value_checked(env, v)
        }
    }
}

/// The names that a value uses stand for what it needs, down through every part of it: a
/// constant it uses is recorded as a constant, or as an access on one; a struct it
/// initializes names a type.
pub open spec fn value_checked(env: &Environment, e: Expression) -> bool
    decreases e,
{
    match e {
        Expression::ConstUse(name) => env.resolved_names.get_spec(name.spec_key()) matches Some(r) && (r is Constant
            || r is InstanceAccess),
        Expression::StructInit { name, parameters, init_content } => {
            &&& spec_resolve_type_name(env, &name, false) matches Some(Some(_))
            &&& forall|i: int|
                0 <= i < parameters@.len() ==> match #[trigger] parameters@[i] {
                    Parameter::Plain(v) => value_checked(env, v),
                    Parameter::Labelled { content, .. } => value_checked(env, content),
                }
            &&& match init_content {
                Some(content) => forall|i: int|
                    0 <= i < content.expressions@.len() ==> value_checked(env, #[trigger] content.expressions@[i]),
                None => true,
            }
        },
        Expression::ChainingMethodInvocation { receiver, accessors } => {
            &&& value_checked(env, *receiver)
            &&& forall|i: int|
                0 <= i < accessors@.len() ==> match #[trigger] accessors@[i].value {
                    Some(v) => value_checked(env, v),
                    None => true,
                }
        },
        Expression::FieldAccess { receiver, .. } => value_checked(env, *receiver),
        Expression::Block(b) => forall|i: int|
            0 <= i < b.statements@.len() ==> match #[trigger] b.statements@[i] {
                Statement::Expression(x) => value_checked(env, x),
                _ => true,
            },
        Expression::Collection(elements) => forall|i: int|
            0 <= i < elements@.len() ==> value_checked(env, #[trigger] elements@[i]),
        _ => true,
    }
}

/// The field has a declared type, and its default value, if any, is checked.
pub open spec fn field_checked(env: &Environment, f: Field) -> bool {
    &&& spec_resolve_type_name(env, &f.field_type.name, f.field_type.is_collection) matches Some(Some(_))
    &&& f.default_value matches Some(v) ==> value_checked(env, v)
}

/// The value of constant `c` of tree `tree` exists and is checked.
pub open spec fn constant_checked(env: &Environment, trees: Seq<AbstractSyntaxTree>, tree: int, c: int) -> bool {
    &&& 0 <= tree < trees.len()
    &&& 0 <= c < trees[tree].constants@.len()
    &&& value_checked(env, trees[tree].constants@[c].value)
}

/// What the checker has made sure of a declaration: the value of a constant is checked; every
/// field of a struct or a trait has a declared type, and every attribute of a struct is a
/// checked constant.
pub open spec fn declaration_checked(env: &Environment, trees: Seq<AbstractSyntaxTree>, tree: int, d: Declaration) -> bool {
    match d {
        Declaration::Constant(c) => constant_checked(env, trees, tree, c as int),
        Declaration::Struct(s) => tree < trees.len() && s < trees[tree].structs@.len() && (forall|i: int|
            0 <= i < trees[tree].structs@[s as int].fields@.len() ==> field_checked(
                env,
                #[trigger] trees[tree].structs@[s as int].fields@[i],
            )) && match trees[tree].structs@[s as int].body {
                Some(body) => forall|j: int|
                    0 <= j < body.attributes@.len() ==> constant_checked(env, trees, tree, #[trigger] body.attributes@[j] as int),
                None => true,
            },
        Declaration::Trait(t) => tree < trees.len() && t < trees[tree].traits@.len() && forall|i: int|
            0 <= i < trees[tree].traits@[t as int].required@.len() ==> field_checked(
                env,
                #[trigger] trees[tree].traits@[t as int].required@[i],
            ),
        _ => true,
    }
}

/// The type of a literal.
pub open spec fn resolve_literal_spec(kind: crate::ast::LiteralKind) -> Types {
    match kind {
        crate::ast::LiteralKind::Binary | crate::ast::LiteralKind::Hex | crate::ast::LiteralKind::Integer => Types::Primitive(Primitive::Int),
        crate::ast::LiteralKind::Boolean => Types::Primitive(Primitive::Bool),
        crate::ast::LiteralKind::Floating => Types::Primitive(Primitive::Float),
        crate::ast::LiteralKind::String => Types::Primitive(Primitive::String),
    }
}

/// `Void` may be assigned to a collection.
/// Whether the source meets the trait through its fields within `fuel` levels, with the
/// pairs `stack` being checked: each field the trait requires has a type that resolves,
/// and the source has a field of that name whose type resolves and is the required one,
/// `Void` for a collection, or a type that in turn meets the required trait.
pub open spec fn fits_trait(
    env: &Environment,
    trees: Seq<AbstractSyntaxTree>,
    source: Types,
    trait_type: Types,
    fuel: nat,
    stack: Seq<(Types, Types)>,
) -> bool
    decreases fuel,
{
    &&& fuel > 0
    &&& !stack.contains((source, trait_type))
    &&& forall|i: int|
        0 <= i < trait_type.spec_fields(trees).len() ==> {
            let m = #[trigger] trait_type.spec_fields(trees)[i];
            &&& field_type_of(env, m) matches Some(Some(et))
            &&& source.spec_access(trees, m.name@) matches Some(TypedElement::Field(found))
            &&& field_exists(trees, found)
            &&& field_type_of(env, spec_field_of(trees, found)) matches Some(Some(ft))
            &&& (ft == et || empty_assignability(ft, et) || (et is Trait && fits_trait(
                env,
                trees,
                ft,
                et,
                (fuel - 1) as nat,
                stack.push((source, trait_type)),
            )))
        }
}

/// Whether a value of type `source` is assignable in place of `target` through fields
/// alone: the same type, `Void` for a collection, or a source that meets the trait.
pub open spec fn fits_by_fields(
    env: &Environment,
    trees: Seq<AbstractSyntaxTree>,
    source: Types,
    target: Types,
    fuel: nat,
    stack: Seq<(Types, Types)>,
) -> bool {
    source == target || empty_assignability(source, target) || (target is Trait && fits_trait(env, trees, source, target, fuel, stack))
}

pub open spec fn empty_assignability(source: Types, target: Types) -> bool {
    source == Types::Primitive(Primitive::Void) && (target is PrimitiveCollection || target is StructCollection || target is TraitCollection)
}

/// Whether the field that the id names lies in the trees.
pub open spec fn field_exists(trees: Seq<AbstractSyntaxTree>, f: FieldId) -> bool {
    let d = f.owner;
    d.tree < trees.len() && if f.in_trait {
        d.index < trees[d.tree as int].traits@.len() && f.index < trees[d.tree as int].traits@[d.index as int].required@.len()
    } else {
        d.index < trees[d.tree as int].structs@.len() && f.index < trees[d.tree as int].structs@[d.index as int].fields@.len()
    }
}

/// The field that the id names, where it lies in the trees.
pub open spec fn spec_field_of(trees: Seq<AbstractSyntaxTree>, f: FieldId) -> Field
    recommends
        field_exists(trees, f),
{
    let d = f.owner;
    if f.in_trait {
        trees[d.tree as int].traits@[d.index as int].required@[f.index as int]
    } else {
        trees[d.tree as int].structs@[d.index as int].fields@[f.index as int]
    }
}

/// The type that the declared type of a field names, as the type names resolve.
pub open spec fn field_type_of(env: &Environment, f: Field) -> Option<Option<Types>> {
    spec_resolve_type_name(env, &f.field_type.name, f.field_type.is_collection)
}

/// A type of `std.essential.Render` where a trait of `std.essential` is expected.
pub open spec fn render_fits(env: &Environment, trees: Seq<AbstractSyntaxTree>, source: Types, target: Types) -> bool {
    spec_in_essential(env, trees, target) && spec_in_essential_render(env, trees, source)
}

/// Every parameter is labelled, no more of them than fields; each field named by a label
/// takes the type of the last parameter so labelled, which fits it by its fields; each field
/// that no label names has a default value.
pub open spec fn labels_fit(
    env: &Environment,
    trees: Seq<AbstractSyntaxTree>,
    fields: Seq<Field>,
    fts: Seq<Types>,
    parameters: Seq<Parameter>,
    pts: Seq<Types>,
    fuel: nat,
    stack: Seq<(Types, Types)>,
) -> bool {
    &&& 0 < parameters.len() <= fields.len()
    &&& fts.len() == fields.len()
    &&& forall|i: int| 0 <= i < parameters.len() ==> (#[trigger] parameters[i]) is Labelled
    &&& forall|j: int|
        0 <= j < fields.len() ==> match label_type(parameters, pts, min_len(parameters.len(), pts.len()), (#[trigger] fields[j]).name@) {
            Some(t) => fits_by_fields(env, trees, t, fts[j], fuel, stack),
            None => fields[j].default_value is Some,
        }
}

/// The parameters are plain, no more of them than fields, each fits the field at its
/// position by its fields, and the field after the last one given, if any, has a default
/// value.
pub open spec fn plain_parameters_fit(
    env: &Environment,
    trees: Seq<AbstractSyntaxTree>,
    fields: Seq<Field>,
    fts: Seq<Types>,
    parameters: Seq<Parameter>,
    pts: Seq<Types>,
    fuel: nat,
    stack: Seq<(Types, Types)>,
) -> bool {
    &&& 0 < parameters.len() <= fields.len()
    &&& fts.len() == fields.len()
    &&& pts.len() == parameters.len()
    &&& !(parameters[0] is Labelled)
    &&& forall|i: int| 0 <= i < pts.len() ==> fits_by_fields(env, trees, #[trigger] pts[i], fts[i], fuel, stack)
    &&& pts.len() < fields.len() ==> fields[pts.len() as int].default_value is Some
}

/// The plain parameters, of types `pts`, go to fields in order by `m`: the `i`-th to the
/// field `m[i]`, whose type it may be assigned; a field before the last one filled that no
/// parameter fills has a default value.
pub open spec fn plain_matching(
    env: &Environment,
    trees: Seq<AbstractSyntaxTree>,
    fields: Seq<Field>,
    fts: Seq<Types>,
    pts: Seq<Types>,
    m: Seq<int>,
) -> bool {
    &&& m.len() == pts.len()
    &&& forall|i: int|
        0 <= i < m.len() ==> 0 <= #[trigger] m[i] < fields.len() && m[i] < fts.len() && assignable_shape(env, trees, pts[i], fts[m[i]])
    &&& forall|i: int, k: int| 0 <= i < k < m.len() ==> #[trigger] m[i] < #[trigger] m[k]
    &&& forall|j: int|
        0 <= j < fields.len() && m.len() > 0 && j < m[m.len() - 1] && !m.contains(j) ==> (#[trigger] fields[j]).default_value is Some
}

/// Each field without a default value is named by the label of some parameter.
pub open spec fn labels_supply(fields: Seq<Field>, parameters: Seq<Parameter>) -> bool {
    forall|j: int|
        0 <= j < fields.len() ==> (#[trigger] fields[j]).default_value is Some || exists|i: int|
            0 <= i < parameters.len() && #[trigger] label_of(parameters[i]) == Some(fields[j].name@)
}

/// `n` plain parameters go to fields in order by `m`, the `i`-th to the field `m[i]`; a
/// field before the last one filled that no parameter fills has a default value.
pub open spec fn fills_in_order(fields: Seq<Field>, n: nat, m: Seq<int>) -> bool {
    &&& m.len() == n
    &&& forall|i: int| 0 <= i < m.len() ==> 0 <= #[trigger] m[i] < fields.len()
    &&& forall|i: int, k: int| 0 <= i < k < m.len() ==> #[trigger] m[i] < #[trigger] m[k]
    &&& forall|j: int|
        0 <= j < fields.len() && m.len() > 0 && j < m[m.len() - 1] && !m.contains(j) ==> (#[trigger] fields[j]).default_value is Some
}

proof fn lemma_label_type_found(parameters: Seq<Parameter>, parameter_types: Seq<Types>, n: int, name: Seq<u8>)
    requires
        n <= parameters.len(),
        label_type(parameters, parameter_types, n, name) is Some,
    ensures
        exists|i: int| 0 <= i < n && #[trigger] label_of(parameters[i]) == Some(name),
    decreases n,
{
    if n > 0 && label_of(parameters[n - 1]) != Some(name) {
        lemma_label_type_found(parameters, parameter_types, n - 1, name);
    }
}

/// One step along a path of names: `to` is the type of the field `name` of `from`, the
/// declared type of that field, or, where `name` is an attribute of `from`, a type its value
/// may have.
pub open spec fn path_step(env: &Environment, trees: Seq<AbstractSyntaxTree>, from: Types, name: Seq<u8>, to: Types) -> bool {
    match from.spec_access(trees, name) {
        Some(TypedElement::Field(f)) => field_names_type(env, trees, f, to),
        Some(TypedElement::Constant(c)) => constant_exists(trees, c) && expression_type_fits(
            env,
            trees,
            trees[c.tree as int].constants@[c.index as int].value,
            to,
        ),
        None => false,
    }
}

/// `chain` follows the path `names`: its `i + 1`-th type is reached from its `i`-th type by
/// the `i`-th name.
pub open spec fn path_chain(env: &Environment, trees: Seq<AbstractSyntaxTree>, chain: Seq<Types>, names: Seq<Ident>) -> bool {
    &&& chain.len() == names.len() + 1
    &&& forall|i: int| 0 <= i < names.len() ==> #[trigger] path_step(env, trees, chain[i], names[i]@, chain[i + 1])
}

/// A step through a field without a default value, none being resolved, whose declared
/// type resolves to `to`.
pub open spec fn plain_step(
    env: &Environment,
    trees: Seq<AbstractSyntaxTree>,
    from: Types,
    name: Seq<u8>,
    to: Types,
    resolving: Seq<FieldId>,
) -> bool {
    &&& from.spec_access(trees, name) matches Some(TypedElement::Field(f))
    &&& field_exists(trees, f)
    &&& !resolving.contains(f)
    &&& spec_field_of(trees, f).default_value is None
    &&& spec_resolve_type_name(env, &spec_field_of(trees, f).field_type.name, spec_field_of(trees, f).field_type.is_collection)
        == Some(Some(to))
}

/// The first `k` names of the path lead, each by a plain step, through the types of `chain`.
pub open spec fn plain_path_upto(
    env: &Environment,
    trees: Seq<AbstractSyntaxTree>,
    chain: Seq<Types>,
    names: Seq<Ident>,
    resolving: Seq<FieldId>,
    k: int,
) -> bool {
    &&& k <= names.len()
    &&& k < chain.len()
    &&& forall|j: int| 0 <= j < k ==> #[trigger] plain_step(env, trees, chain[j], names[j]@, chain[j + 1], resolving)
}

/// What the type of a value may be, as far as its form shows: a literal or `()` has its own
/// type; a struct initialization, or chaining methods on one, has the type of the struct it
/// names.
pub open spec fn expression_type_fits(env: &Environment, trees: Seq<AbstractSyntaxTree>, e: Expression, t: Types) -> bool {
    match e {
        Expression::StructInit { name, .. } => spec_resolve_type_name(env, &name, false) == Some(Some(t)),
        Expression::ChainingMethodInvocation { receiver, .. } => match *receiver {
            Expression::StructInit { name, .. } => spec_resolve_type_name(env, &name, false) == Some(Some(t)),
            _ => true,
        },
        _ => immediate_type(e) matches Some(u) ==> u == t,
    }
}

/// The type reached through the names `f1 .. fn` is reached from the type reached through
/// `f1 .. f(n-1)` by the step that `fn` makes on it.
pub proof fn lemma_path_last_step(env: &Environment, trees: Seq<AbstractSyntaxTree>, chain: Seq<Types>, names: Seq<Ident>)
    requires
        path_chain(env, trees, chain, names),
        names.len() > 0,
    ensures
        path_chain(env, trees, chain.drop_last(), names.drop_last()),
        path_step(env, trees, chain[names.len() - 1], names.last()@, chain.last()),
        chain[names.len() - 1].spec_access(trees, names.last()@) is Some,
{
    let n = names.len() - 1;
    assert(path_step(env, trees, chain[n], names[n]@, chain[n + 1]));
    assert forall|i: int| 0 <= i < names.drop_last().len() implies #[trigger] path_step(
        env,
        trees,
        chain.drop_last()[i],
        names.drop_last()[i]@,
        chain.drop_last()[i + 1],
    ) by {
        assert(path_step(env, trees, chain[i], names[i]@, chain[i + 1]));
    }
}

/// A path of fields without default values reaches one type only: two chains that follow
/// it from the same type agree at every step.
pub proof fn lemma_plain_path_determined(
    env: &Environment,
    trees: Seq<AbstractSyntaxTree>,
    a: Seq<Types>,
    b: Seq<Types>,
    names: Seq<Ident>,
    resolving: Seq<FieldId>,
    k: int,
)
    requires
        plain_path_upto(env, trees, a, names, resolving, k),
        plain_path_upto(env, trees, b, names, resolving, k),
        0 <= k,
        a[0] == b[0],
    ensures
        forall|j: int| 0 <= j <= k ==> #[trigger] a[j] == b[j],
    decreases k,
{
    if k > 0 {
        lemma_plain_prefix(env, trees, a, names, resolving, k, k - 1);
        lemma_plain_prefix(env, trees, b, names, resolving, k, k - 1);
        lemma_plain_path_determined(env, trees, a, b, names, resolving, k - 1);
        let j = k - 1;
        assert(plain_step(env, trees, a[j], names[j]@, a[j + 1], resolving));
        assert(plain_step(env, trees, b[j], names[j]@, b[j + 1], resolving));
        assert(a[j] == b[j]);
    }
}

/// A field with a default value that no label names does not stop labelled parameters from
/// fitting: adding one to fields that they fit, they fit still.
pub proof fn lemma_labels_fit_default_field(
    env: &Environment,
    trees: Seq<AbstractSyntaxTree>,
    fields: Seq<Field>,
    fts: Seq<Types>,
    parameters: Seq<Parameter>,
    pts: Seq<Types>,
    fuel: nat,
    stack: Seq<(Types, Types)>,
    extra: Field,
    extra_type: Types,
)
    requires
        labels_fit(env, trees, fields, fts, parameters, pts, fuel, stack),
        extra.default_value is Some,
        label_type(parameters, pts, min_len(parameters.len(), pts.len()), extra.name@) is None,
    ensures
        labels_fit(env, trees, fields.push(extra), fts.push(extra_type), parameters, pts, fuel, stack),
{
    let fs = fields.push(extra);
    let ts = fts.push(extra_type);
    assert forall|j: int| 0 <= j < fs.len() implies match label_type(
        parameters,
        pts,
        min_len(parameters.len(), pts.len()),
        (#[trigger] fs[j]).name@,
    ) {
        Some(t) => fits_by_fields(env, trees, t, ts[j], fuel, stack),
        None => fs[j].default_value is Some,
    } by {
        if j < fields.len() {
            assert(fs[j] == fields[j]);
            assert(ts[j] == fts[j]);
        }
    }
}

proof fn lemma_plain_prefix(
    env: &Environment,
    trees: Seq<AbstractSyntaxTree>,
    chain: Seq<Types>,
    names: Seq<Ident>,
    resolving: Seq<FieldId>,
    k: int,
    m: int,
)
    requires
        plain_path_upto(env, trees, chain, names, resolving, k),
        0 <= m <= k,
    ensures
        plain_path_upto(env, trees, chain, names, resolving, m),
{
    assert forall|j: int| 0 <= j < m implies #[trigger] plain_step(env, trees, chain[j], names[j]@, chain[j + 1], resolving) by {
        assert(plain_step(env, trees, chain[j], names[j]@, chain[j + 1], resolving));
    }
}

/// The smaller of two lengths.
pub open spec fn min_len(a: nat, b: nat) -> int {
    if a < b {
        a as int
    } else {
        b as int
    }
}

/// What an assignable value of type `source` in place of `target` may be: the same type,
/// `Void` for a collection, a type that has the trait's fields, or `Render` for a trait of
/// `std.essential`.
pub open spec fn assignable_shape(env: &Environment, trees: Seq<AbstractSyntaxTree>, source: Types, target: Types) -> bool {
    ||| source == target
    ||| empty_assignability(source, target)
    ||| (target is Trait && has_trait_fields(trees, source, target))
    ||| render_fits(env, trees, source, target)
}

/// The field `m` of a trait is met by the source: its type resolves, the source has a field
/// or attribute of its name, and a field found has a type that resolves and may be assigned
/// to the required one.
pub open spec fn field_fits(env: &Environment, trees: Seq<AbstractSyntaxTree>, source: Types, m: Field) -> bool {
    &&& field_type_of(env, m) matches Some(Some(et))
    &&& source.spec_access(trees, m.name@) matches Some(a)
    &&& a matches TypedElement::Field(found) ==> field_exists(trees, found) && (field_type_of(
        env,
        spec_field_of(trees, found),
    ) matches Some(Some(ft)) && assignable_shape(env, trees, ft, et))
}

/// The field `m` of a trait is missed by the source: its type resolves, and the source has
/// no field or attribute of its name, or has an attribute, or has a field whose type is
/// neither the required one, nor `Void` for a collection, nor `Render` for it.
pub open spec fn field_misses(env: &Environment, trees: Seq<AbstractSyntaxTree>, source: Types, m: Field) -> bool {
    &&& field_type_of(env, m) matches Some(Some(et))
    &&& match source.spec_access(trees, m.name@) {
        None => true,
        Some(TypedElement::Constant(_)) => true,
        Some(TypedElement::Field(found)) => field_exists(trees, found) && (field_type_of(env, spec_field_of(trees, found))
            matches Some(Some(ft)) && ft != et && !empty_assignability(ft, et) && !render_fits(env, trees, ft, et)),
    }
}

/// The source has, for each field of the trait, a field of the same name whose declared
/// type is the one required.
pub open spec fn fields_match_exactly(env: &Environment, trees: Seq<AbstractSyntaxTree>, source: Types, trait_type: Types) -> bool {
    forall|i: int|
        0 <= i < trait_type.spec_fields(trees).len() ==> {
            let m = #[trigger] trait_type.spec_fields(trees)[i];
            &&& field_type_of(env, m) matches Some(Some(et))
            &&& source.spec_access(trees, m.name@) matches Some(TypedElement::Field(found))
            &&& field_exists(trees, found)
            &&& field_type_of(env, spec_field_of(trees, found)) == Some(Some(et))
        }
}

/// The keys of the names on a stack.
pub open spec fn stack_keys(stack: Seq<Name>) -> Seq<(Seq<Seq<u8>>, ScopeId)> {
    stack.map_values(|n: Name| n.spec_key())
}

/// Whether the constant, followed through values that are uses of names standing for
/// constants, comes back to a constant of `stack` within `fuel` steps: a cycle of
/// constant definitions.
pub open spec fn use_chain_cycles(env: &Environment, trees: Seq<AbstractSyntaxTree>, c: DeclId, stack: Seq<DeclId>, fuel: nat) -> bool
    decreases fuel,
{
    &&& constant_exists(trees, c)
    &&& if stack.contains(c) {
        true
    } else if fuel == 0 {
        false
    } else {
        match trees[c.tree as int].constants@[c.index as int].value {
            Expression::ConstUse(n) => match env.resolved_names.get_spec(n.spec_key()) {
                Some(Resolved::Constant(c2)) => use_chain_cycles(env, trees, c2, stack.push(c), (fuel - 1) as nat),
                _ => false,
            },
            _ => false,
        }
    }
}

/// The declaration is a constant whose definition comes back to itself through uses of
/// names that stand for constants.
pub open spec fn cyclic_constant(env: &Environment, trees: Seq<AbstractSyntaxTree>, tree: int, d: Declaration) -> bool {
    d matches Declaration::Constant(c) && use_chain_cycles(env, trees, DeclId { tree: tree as usize, index: c }, Seq::empty(), MAX_NESTING as nat)
}

/// Some declaration of the trees is a constant defined through itself.
pub open spec fn defines_constant_cycle(env: &Environment, trees: Seq<AbstractSyntaxTree>) -> bool {
    exists|t: int, i: int|
        0 <= t < trees.len() && 0 <= i < trees[t].compilation_unit.declarations@.len() && #[trigger] cyclic_constant(
            env,
            trees,
            t,
            trees[t].compilation_unit.declarations@[i],
        )
}

/// A cycle found from a stack is found from any stack that holds it.
pub proof fn lemma_use_chain_cycles_grows(
    env: &Environment,
    trees: Seq<AbstractSyntaxTree>,
    c: DeclId,
    stack: Seq<DeclId>,
    bigger: Seq<DeclId>,
    fuel: nat,
)
    requires
        use_chain_cycles(env, trees, c, stack, fuel),
        forall|d: DeclId| stack.contains(d) ==> bigger.contains(d),
    ensures
        use_chain_cycles(env, trees, c, bigger, fuel),
    decreases fuel,
{
    if !bigger.contains(c) {
        assert(!stack.contains(c));
        let n = trees[c.tree as int].constants@[c.index as int].value->ConstUse_0;
        let c2 = env.resolved_names.get_spec(n.spec_key())->0->Constant_0;
        assert forall|d: DeclId| stack.push(c).contains(d) implies bigger.push(c).contains(d) by {
            if d != c {
                let k = choose|k: int| 0 <= k < stack.push(c).len() && stack.push(c)[k] == d;
                assert(stack.contains(d));
                let k2 = choose|k2: int| 0 <= k2 < bigger.len() && bigger[k2] == d;
                assert(bigger.push(c)[k2] == d);
            } else {
                assert(bigger.push(c)[bigger.len() as int] == c);
            }
        }
        lemma_use_chain_cycles_grows(env, trees, c2, stack.push(c), bigger.push(c), (fuel - 1) as nat);
    }
}

/// Both states hold the same stacks.
pub open spec fn same_stacks(a: CheckState, b: CheckState) -> bool {
    &&& a.checking_names@ == b.checking_names@
    &&& a.resolving_fields@ == b.resolving_fields@
    &&& a.resolving_constants@ == b.resolving_constants@
    &&& a.checking_conformance@ == b.checking_conformance@
}

/// Whether an expression is made of literals, `()`, collections, blocks and uses of
/// constants whose values are such expressions, with no cycle through the names `names`
/// and constants `consts` being resolved, and at most `fuel` levels deep.
pub open spec fn simply_typed(
    env: &Environment,
    trees: Seq<AbstractSyntaxTree>,
    e: Expression,
    fuel: nat,
    names: Seq<(Seq<Seq<u8>>, ScopeId)>,
    consts: Seq<DeclId>,
) -> bool
    decreases fuel,
{
    match e {
        Expression::Literal { .. } | Expression::Void => true,
        Expression::ConstUse(name) => {
            &&& fuel > 0
            &&& !names.contains(name.spec_key())
            &&& env.resolved_names.get_spec(name.spec_key()) matches Some(Resolved::Constant(c))
            &&& constant_exists(trees, c)
            &&& !consts.contains(c)
            &&& simply_typed(
                env,
                trees,
                trees[c.tree as int].constants@[c.index as int].value,
                (fuel - 1) as nat,
                names.push(name.spec_key()),
                consts.push(c),
            )
        },
        Expression::Collection(es) => {
            &&& fuel > 0
            &&& forall|i: int| 0 <= i < es@.len() ==> simply_typed(env, trees, #[trigger] es@[i], (fuel - 1) as nat, names, consts)
        },
        Expression::Block(b) => {
            &&& fuel > 0
            &&& forall|i: int|
                0 <= i < b.statements@.len() ==> match #[trigger] b.statements@[i] {
                    Statement::Expression(x) => simply_typed(env, trees, x, (fuel - 1) as nat, names, consts),
                    _ => true,
                }
        },
        _ => false,
    }
}

/// The type of an expression that is simply typed: a literal's type; `Void` for `()`, an
/// empty collection or block; the collection of the type of a collection's first element;
/// the type of a block's last statement (`Void` for a constant declaration); the type of
/// the value of a used constant.
pub open spec fn simple_type(
    env: &Environment,
    trees: Seq<AbstractSyntaxTree>,
    e: Expression,
    fuel: nat,
    names: Seq<(Seq<Seq<u8>>, ScopeId)>,
    consts: Seq<DeclId>,
) -> Types
    decreases fuel, 0nat,
{
    match e {
        Expression::Literal { kind, .. } => resolve_literal_spec(kind),
        Expression::ConstUse(name) => if fuel > 0 {
            match env.resolved_names.get_spec(name.spec_key()) {
                Some(Resolved::Constant(c)) => simple_type(
                    env,
                    trees,
                    trees[c.tree as int].constants@[c.index as int].value,
                    (fuel - 1) as nat,
                    names.push(name.spec_key()),
                    consts.push(c),
                ),
                _ => Types::Primitive(Primitive::Void),
            }
        } else {
            Types::Primitive(Primitive::Void)
        },
        Expression::Collection(es) => if fuel > 0 && es@.len() > 0 {
            simple_type(env, trees, es@[0], (fuel - 1) as nat, names, consts).spec_collection_type()
        } else {
            Types::Primitive(Primitive::Void)
        },
        Expression::Block(b) => if fuel > 0 {
            block_type(env, trees, b.statements@, (fuel - 1) as nat, names, consts)
        } else {
            Types::Primitive(Primitive::Void)
        },
        _ => Types::Primitive(Primitive::Void),
    }
}

/// The type of a block's statements: that of the last, each with `fuel` levels to go, or
/// `Void` for none or a constant declaration.
pub open spec fn block_type(
    env: &Environment,
    trees: Seq<AbstractSyntaxTree>,
    ss: Seq<Statement>,
    fuel: nat,
    names: Seq<(Seq<Seq<u8>>, ScopeId)>,
    consts: Seq<DeclId>,
) -> Types
    decreases fuel, 1nat,
{
    if ss.len() == 0 {
        Types::Primitive(Primitive::Void)
    } else {
        match ss.last() {
            Statement::Expression(x) => simple_type(env, trees, x, fuel, names, consts),
            _ => Types::Primitive(Primitive::Void),
        }
    }
}

/// Whether the name stands for a constant, with no cycle, whose value is simply typed with
/// `fuel` levels to go.
pub open spec fn use_typed(
    env: &Environment,
    trees: Seq<AbstractSyntaxTree>,
    name: Name,
    fuel: nat,
    names: Seq<(Seq<Seq<u8>>, ScopeId)>,
    consts: Seq<DeclId>,
) -> bool {
    &&& !names.contains(name.spec_key())
    &&& env.resolved_names.get_spec(name.spec_key()) matches Some(Resolved::Constant(c))
    &&& constant_exists(trees, c)
    &&& !consts.contains(c)
    &&& simply_typed(env, trees, trees[c.tree as int].constants@[c.index as int].value, fuel, names.push(name.spec_key()), consts.push(c))
}

/// The type of the value of the constant that the name stands for.
pub open spec fn use_type(
    env: &Environment,
    trees: Seq<AbstractSyntaxTree>,
    name: Name,
    fuel: nat,
    names: Seq<(Seq<Seq<u8>>, ScopeId)>,
    consts: Seq<DeclId>,
) -> Types {
    match env.resolved_names.get_spec(name.spec_key()) {
        Some(Resolved::Constant(c)) => simple_type(
            env,
            trees,
            trees[c.tree as int].constants@[c.index as int].value,
            fuel,
            names.push(name.spec_key()),
            consts.push(c),
        ),
        _ => Types::Primitive(Primitive::Void),
    }
}

/// Whether each expression statement of a block is simply typed with `fuel` levels to go.
pub open spec fn statements_typed(
    env: &Environment,
    trees: Seq<AbstractSyntaxTree>,
    ss: Seq<Statement>,
    fuel: nat,
    names: Seq<(Seq<Seq<u8>>, ScopeId)>,
    consts: Seq<DeclId>,
) -> bool {
    forall|i: int|
        0 <= i < ss.len() ==> match #[trigger] ss[i] {
            Statement::Expression(x) => simply_typed(env, trees, x, fuel, names, consts),
            _ => true,
        }
}

/// The field `m` of a trait is met with the same type: its type resolves, the source has a
/// field or attribute of its name, and a field found has that very type.
pub open spec fn field_same(env: &Environment, trees: Seq<AbstractSyntaxTree>, source: Types, m: Field) -> bool {
    &&& field_type_of(env, m) matches Some(Some(et))
    &&& source.spec_access(trees, m.name@) matches Some(a)
    &&& a matches TypedElement::Field(found) ==> field_exists(trees, found) && field_type_of(env, spec_field_of(trees, found))
        == Some(Some(et))
}

/// Whether constant `d` lies in the trees.
pub open spec fn constant_exists(trees: Seq<AbstractSyntaxTree>, d: DeclId) -> bool {
    d.tree < trees.len() && d.index < trees[d.tree as int].constants@.len()
}

/// The type of an expression whose type is known without looking anything up: a literal
/// or `()`.
pub open spec fn immediate_type(e: Expression) -> Option<Types> {
    match e {
        Expression::Literal { kind, .. } => Some(resolve_literal_spec(kind)),
        Expression::Void => Some(Types::Primitive(Primitive::Void)),
        _ => None,
    }
}

/// The type of a statement known without looking anything up: `Void` for a constant
/// declaration, that of a literal or of `()`.
pub open spec fn immediate_statement_type(s: Statement) -> Option<Types> {
    match s {
        Statement::ConstantDeclaration(_) => Some(Types::Primitive(Primitive::Void)),
        Statement::Expression(e) => immediate_type(e),
    }
}

/// The constant exists, is not being resolved, and its value is simply typed within the
/// nesting bound, with the names `names` and the constants `consts` being resolved.
pub open spec fn constant_typed_at(
    env: &Environment,
    trees: Seq<AbstractSyntaxTree>,
    d: DeclId,
    names: Seq<(Seq<Seq<u8>>, ScopeId)>,
    consts: Seq<DeclId>,
) -> bool {
    &&& constant_exists(trees, d)
    &&& !consts.contains(d)
    &&& simply_typed(env, trees, trees[d.tree as int].constants@[d.index as int].value, MAX_NESTING as nat, names, consts.push(d))
}

/// The declaration passes the type check with nothing resolved around it: an import, a
/// struct or trait without fields or attributes, or a constant whose value is simply typed.
pub open spec fn checks_simply(env: &Environment, trees: Seq<AbstractSyntaxTree>, tree: int, d: Declaration) -> bool {
    ||| checks_at_once(trees, tree, d)
    ||| d matches Declaration::Constant(c) && 0 <= tree && constant_typed_at(
        env,
        trees,
        DeclId { tree: tree as usize, index: c },
        Seq::empty(),
        Seq::empty(),
    )
}

/// Every declaration of the trees passes the type check with nothing resolved around it.
pub open spec fn program_checks_simply(env: &Environment, trees: Seq<AbstractSyntaxTree>) -> bool {
    forall|t: int, i: int|
        0 <= t < trees.len() && 0 <= i < trees[t].compilation_unit.declarations@.len() ==> checks_simply(
            env,
            trees,
            t,
            #[trigger] trees[t].compilation_unit.declarations@[i],
        )
}

/// Whether a declaration is checked without looking anything up: an import, a trait that
/// requires no field, or a struct without fields or attributes.
pub open spec fn checks_at_once(trees: Seq<AbstractSyntaxTree>, tree: int, d: Declaration) -> bool {
    match d {
        Declaration::Import(_) => true,
        Declaration::Trait(t) => 0 <= tree < trees.len() && t < trees[tree].traits@.len()
            && trees[tree].traits@[t as int].required@.len() == 0,
        Declaration::Struct(s) => 0 <= tree < trees.len() && s < trees[tree].structs@.len()
            && trees[tree].structs@[s as int].fields@.len() == 0 && (trees[tree].structs@[s as int].body matches Some(b)
            ==> b.attributes@.len() == 0),
        Declaration::Constant(_) => false,
    }
}

/// Checks the types of a program.
pub struct TypeChecker<'e> {
    pub environment: &'e Environment,
    pub syntax_trees: &'e Vec<AbstractSyntaxTree>,
    pub state: CheckState,
}

impl<'e> TypeChecker<'e> {
    /// A checker for the environment and the trees it was built from.
    pub fn with_environment(environment: &'e Environment, syntax_trees: &'e Vec<AbstractSyntaxTree>) -> (c: Self)
        ensures
            c.environment == environment,
            c.syntax_trees == syntax_trees,
            c.state.checking_names@.len() == 0,
            c.state.resolving_fields@.len() == 0,
            c.state.resolving_constants@.len() == 0,
            c.state.checking_conformance@.len() == 0,
    {
        TypeChecker { environment, syntax_trees, state: CheckState::new() }
    }

    /// Checks every declaration of every tree.
    pub fn check(self) -> (res: Result<(), EnvError>)
        requires
            self.environment.wf(),
        ensures
            res is Ok ==> forall|t: int, i: int|
                0 <= t < self.syntax_trees@.len() && 0 <= i < self.syntax_trees@[t].compilation_unit.declarations@.len()
                    ==> declaration_checked(
                    self.environment,
                    self.syntax_trees@,
                    t,
                    #[trigger] self.syntax_trees@[t].compilation_unit.declarations@[i],
                ),
            (forall|t: int, i: int|
                0 <= t < self.syntax_trees@.len() && 0 <= i < self.syntax_trees@[t].compilation_unit.declarations@.len()
                    ==> checks_at_once(self.syntax_trees@, t, #[trigger] self.syntax_trees@[t].compilation_unit.declarations@[i]))
                ==> res is Ok,
            self.state.checking_names@.len() == 0 && self.state.resolving_constants@.len() == 0 && program_checks_simply(
                self.environment,
                self.syntax_trees@,
            ) ==> res is Ok,
            defines_constant_cycle(self.environment, self.syntax_trees@) ==> res is Err,
    {
        let TypeChecker { environment, syntax_trees, state } = self;
        let mut state = state;
        let ghost simple = state.checking_names@.len() == 0 && state.resolving_constants@.len() == 0 && program_checks_simply(
            environment,
            syntax_trees@,
        );
        let mut tree: usize = 0;
        while tree < syntax_trees.len()
            invariant
                environment.wf(),
                environment == self.environment,
                syntax_trees == self.syntax_trees,
                tree <= syntax_trees@.len(),
                forall|t: int, i: int|
                    0 <= t < tree && 0 <= i < syntax_trees@[t].compilation_unit.declarations@.len() ==> declaration_checked(
                        environment,
                        syntax_trees@,
                        t,
                        #[trigger] syntax_trees@[t].compilation_unit.declarations@[i],
                    ),
                simple == (self.state.checking_names@.len() == 0 && self.state.resolving_constants@.len() == 0
                    && program_checks_simply(environment, syntax_trees@)),
                simple ==> state.checking_names@.len() == 0 && state.resolving_constants@.len() == 0,
                forall|t: int, k: int|
                    0 <= t < tree && 0 <= k < syntax_trees@[t].compilation_unit.declarations@.len() ==> !#[trigger] cyclic_constant(
                        environment,
                        syntax_trees@,
                        t,
                        syntax_trees@[t].compilation_unit.declarations@[k],
                    ),
            decreases syntax_trees@.len() - tree,
        {
            let declarations = &syntax_trees[tree].compilation_unit.declarations;
            let mut i: usize = 0;
            while i < declarations.len()
                invariant
                    environment.wf(),
                    environment == self.environment,
                    syntax_trees == self.syntax_trees,
                    tree < syntax_trees@.len(),
                    *declarations == syntax_trees@[tree as int].compilation_unit.declarations,
                    i <= declarations@.len(),
                    forall|t: int, k: int|
                        0 <= t < tree && 0 <= k < syntax_trees@[t].compilation_unit.declarations@.len() ==> declaration_checked(
                            environment,
                            syntax_trees@,
                            t,
                            #[trigger] syntax_trees@[t].compilation_unit.declarations@[k],
                        ),
                    forall|k: int| 0 <= k < i ==> declaration_checked(environment, syntax_trees@, tree as int, #[trigger] declarations@[k]),
                    simple == (self.state.checking_names@.len() == 0 && self.state.resolving_constants@.len() == 0
                        && program_checks_simply(environment, syntax_trees@)),
                    simple ==> state.checking_names@.len() == 0 && state.resolving_constants@.len() == 0,
                    forall|t: int, k: int|
                        0 <= t < tree && 0 <= k < syntax_trees@[t].compilation_unit.declarations@.len() ==> !#[trigger] cyclic_constant(
                            environment,
                            syntax_trees@,
                            t,
                            syntax_trees@[t].compilation_unit.declarations@[k],
                        ),
                    forall|k: int| 0 <= k < i ==> !#[trigger] cyclic_constant(environment, syntax_trees@, tree as int, declarations@[k]),
                decreases declarations@.len() - i,
            {
                proof {
                    if simple {
                        assert(checks_simply(environment, syntax_trees@, tree as int, syntax_trees@[tree as int].compilation_unit.declarations@[i as int]));
                        assert(stack_keys(state.checking_names@) =~= Seq::<(Seq<Seq<u8>>, ScopeId)>::empty());
                        assert(state.resolving_constants@ =~= Seq::<DeclId>::empty());
                    }
                }
                assert((forall|t: int, k: int|
                    0 <= t < syntax_trees@.len() && 0 <= k < syntax_trees@[t].compilation_unit.declarations@.len()
                        ==> checks_at_once(syntax_trees@, t, #[trigger] syntax_trees@[t].compilation_unit.declarations@[k]))
                    ==> checks_at_once(syntax_trees@, tree as int, declarations@[i as int]));
                state.resolve_declaration(environment, syntax_trees, tree, &declarations[i])?;
                i = i + 1;
            }
            proof {
                assert forall|t: int, k: int|
                    0 <= t < tree + 1 && 0 <= k < syntax_trees@[t].compilation_unit.declarations@.len() implies !#[trigger] cyclic_constant(
                        environment,
                        syntax_trees@,
                        t,
                        syntax_trees@[t].compilation_unit.declarations@[k],
                    ) by {
                    if t == tree {
                        assert(syntax_trees@[t].compilation_unit.declarations@[k] == declarations@[k]);
                    }
                }
            }
            tree = tree + 1;
        }
        Ok(())
    }

    /// The type of one expression.
    pub fn test_resolve_expression(&mut self, expression: &Expression) -> (res: Result<Types, EnvError>)
        requires
            old(self).environment.wf(),
        ensures
            expression matches Expression::Literal { kind, .. } ==> res == Ok::<Types, EnvError>(
                resolve_literal_spec(*kind),
            ),
            expression is Void ==> res == Ok::<Types, EnvError>(Types::Primitive(Primitive::Void)),
            res is Ok ==> match *expression {
                Expression::ConstUse(name) => old(self).environment.resolved_names.get_spec(name.spec_key()) matches Some(r) && (r is Constant
                    || r is InstanceAccess),
                Expression::SelfRef(_) => res->Ok_0 is Struct,
                Expression::StructInit { name, parameters, init_content } => spec_resolve_type_name(
                    old(self).environment,
                    &name,
                    false,
                ) == Some(Some(res->Ok_0)) && if init_content is None {
                    &&& parameters@.len() <= res->Ok_0.spec_fields(old(self).syntax_trees@).len()
                    &&& parameters@.len() > 0 && parameters@[0] is Labelled ==> labels_supply(
                        res->Ok_0.spec_fields(old(self).syntax_trees@),
                        parameters@,
                    )
                    &&& parameters@.len() > 0 && !(parameters@[0] is Labelled) ==> exists|m: Seq<int>|
                        fills_in_order(res->Ok_0.spec_fields(old(self).syntax_trees@), parameters@.len(), m)
                } else {
                    parameters@.len() < res->Ok_0.spec_fields(old(self).syntax_trees@).len()
                },
                Expression::Collection(es) => if es@.len() == 0 {
                    res->Ok_0 == Types::Primitive(Primitive::Void)
                } else {
                    res->Ok_0.is_collection()
                },
                Expression::Block(b) => (b.statements@.len() == 0 || b.statements@.last() is ConstantDeclaration) ==> res->Ok_0
                    == Types::Primitive(Primitive::Void),
                Expression::ChainingMethodInvocation { receiver, accessors } => (forall|k: int|
                    0 <= k < accessors@.len() ==> (res->Ok_0.spec_field(old(self).syntax_trees@, (#[trigger] accessors@[k]).identifier@) matches Some(f)
                        && (accessors@[k].value is None ==> field_has_default(old(self).syntax_trees@, f)))) && (*receiver matches Expression::StructInit {
                    name,
                    ..
                } ==> spec_resolve_type_name(old(self).environment, &name, false) == Some(Some(res->Ok_0))),
                _ => true,
            },
            res is Ok ==> value_checked(old(self).environment, *expression),
            simply_typed(
                old(self).environment,
                old(self).syntax_trees@,
                *expression,
                MAX_NESTING as nat,
                stack_keys(old(self).state.checking_names@),
                old(self).state.resolving_constants@,
            ) ==> res == Ok::<Types, EnvError>(
                simple_type(
                    old(self).environment,
                    old(self).syntax_trees@,
                    *expression,
                    MAX_NESTING as nat,
                    stack_keys(old(self).state.checking_names@),
                    old(self).state.resolving_constants@,
                ),
            ),
            final(self).environment == old(self).environment,
            final(self).syntax_trees == old(self).syntax_trees,
    {
        let environment = self.environment;
        let syntax_trees = self.syntax_trees;
        self.state.resolve_expression(environment, syntax_trees, expression, MAX_NESTING)
    }

    /// Checks that the program declares `Main` as a constant whose value can be assigned to
    /// `std.essential.Render`.
    pub fn entry_check(&mut self) -> (res: Result<(), EnvError>)
        requires
            old(self).environment.wf(),
        ensures
            final(self).environment == old(self).environment,
            final(self).syntax_trees == old(self).syntax_trees,
            entry_refusal(old(self).environment) matches Some(e) ==> res == Err::<(), EnvError>(e),
            res is Ok ==> entry_found(old(self).environment),
    {
        let environment = self.environment;
        let syntax_trees = self.syntax_trees;
        let entry = match environment.entry()? {
            Some(e) => e,
            None => {
                return Err(EnvError::EntryNotDeclared);
            },
        };
        let render = match essential_trait::render(environment)? {
            Some(r) => r,
            None => {
                return Err(EnvError::RenderNotFound);
            },
        };
        let entry_type = self.state.resolve_constant_value(environment, syntax_trees, entry, MAX_NESTING)?;
        if !self.state.assignable(environment, syntax_trees, entry_type, render, MAX_NESTING)? {
            return Err(EnvError::TypeMismatch {
                expected: display_type(syntax_trees, render),
                found: display_type(syntax_trees, entry_type),
            });
        }
        Ok(())
    }
}

} // verus!
