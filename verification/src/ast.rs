//! The abstract syntax tree of a source file.
//!
//! Declarations live in arenas of their tree (`constants`, `structs`, `traits`) and are
//! referred to by their index there; a declaration of the whole program is named by the
//! index of its tree and its index in that tree (`DeclId`).
use crate::env::scope::Scoped;
use crate::names::{copy_path, path_eq, path_view, Ident, TableKey};
use vstd::prelude::*;

verus! {

/// The index of a scope in the environment.
pub type ScopeId = usize;

/// The scope that every other scope ends in.
pub const GLOBAL_SCOPE: usize = 0;

/// A declaration of the program: the index of its syntax tree and its index in that tree's
/// arena.
#[derive(Clone, Copy, Debug, PartialEq, Eq, Structural)]
pub struct DeclId {
    pub tree: usize,
    pub index: usize,
}

/// The kinds of literals.
#[derive(Clone, Copy, Debug, PartialEq, Eq, Structural)]
pub enum LiteralKind {
    Integer,
    Floating,
    Hex,
    Binary,
    Boolean,
    String,
}

/// A possibly qualified name, together with the scope it is used in.
#[derive(Debug)]
pub struct Name {
    pub moniker: Vec<Ident>,
    pub scope: ScopeId,
}

impl Name {
    /// The components of the name, each as its bytes.
    pub open spec fn path(&self) -> Seq<Seq<u8>> {
        path_view(self.moniker@)
    }

    /// A name made of one identifier, in the global scope.
    pub fn simple(name: Ident) -> (n: Name)
        ensures
            n.path() == seq![name@],
            n.scope == GLOBAL_SCOPE,
    {
        let ghost v = name@;
        let n = Name { moniker: vec![name], scope: GLOBAL_SCOPE };
        assert(n.path() =~= seq![v]);
        n
    }

    /// A name made of several identifiers, in the global scope.
    pub fn qualified(moniker: Vec<Ident>) -> (n: Name)
        ensures
            n.moniker@ == moniker@,
            n.scope == GLOBAL_SCOPE,
    {
        Name { moniker, scope: GLOBAL_SCOPE }
    }

    /// A fresh copy of the name.
    pub fn duplicate(&self) -> (n: Name)
        ensures
            n.path() == self.path(),
            n.scope == self.scope,
    {
        Name { moniker: copy_path(self.moniker.as_slice()), scope: self.scope }
    }

    /// Whether the name has a single component.
    pub fn is_simple(&self) -> (b: bool)
        ensures
            b == (self.moniker@.len() == 1),
    {
        self.moniker.len() == 1
    }
}

impl Scoped for Name {
    open spec fn scope_of(&self) -> ScopeId {
        self.scope
    }

    /// Sets the scope the name is used in; the components stay.
    fn set_scope(&mut self, scope: ScopeId)
        ensures
            final(self).moniker == old(self).moniker,
    {
        self.scope = scope;
    }

    /// The scope the name is used in.
    fn scope(&self) -> (s: ScopeId) {
        self.scope
    }
}

impl TableKey for Name {
    type Spec = (Seq<Seq<u8>>, ScopeId);

    open spec fn spec_key(&self) -> (Seq<Seq<u8>>, ScopeId) {
        (self.path(), self.scope)
    }

    fn same_key(&self, other: &Self) -> (res: bool) {
        self.scope == other.scope && path_eq(self.moniker.as_slice(), other.moniker.as_slice())
    }
}

/// A parameter of a struct initialization.
#[derive(Debug)]
pub enum Parameter {
    Plain(Expression),
    Labelled { label: Ident, content: Expression },
}

impl Parameter {
    /// Whether the parameter carries a label.
    pub fn is_labelled(&self) -> (b: bool)
        ensures
            b == (self is Labelled),
    {
        match self {
            Parameter::Labelled { .. } => true,
            Parameter::Plain(_) => false,
        }
    }

    /// The expression of the parameter.
    pub fn expression(&self) -> (e: &Expression)
        ensures
            *e == match self {
                Parameter::Plain(v) => *v,
                Parameter::Labelled { content, .. } => *content,
            },
    {
        match self {
            Parameter::Plain(value) => value,
            Parameter::Labelled { content, .. } => content,
        }
    }

    /// The expression of the parameter, taken out of it.
    pub fn expression_owned(self) -> (e: Expression)
        ensures
            e == match self {
                Parameter::Plain(v) => v,
                Parameter::Labelled { content, .. } => content,
            },
    {
        match self {
            Parameter::Plain(value) => value,
            Parameter::Labelled { content, .. } => content,
        }
    }
}

/// One step of a chaining method invocation: `.identifier(value)`.
#[derive(Debug)]
pub struct Accessor {
    pub identifier: Ident,
    pub value: Option<Expression>,
}

/// The expressions between the braces that follow a struct initialization.
#[derive(Debug)]
pub struct StructInitContent {
    pub expressions: Vec<Expression>,
    pub scope: ScopeId,
}

/// A block of statements; its value is that of its last statement.
#[derive(Debug)]
pub struct Block {
    pub statements: Vec<Statement>,
    pub scope: ScopeId,
}

/// A statement of a block.
#[derive(Debug)]
pub enum Statement {
    Expression(Expression),
    /// A constant declared in the block, by its index in the tree's constants.
    ConstantDeclaration(usize),
}

/// An expression.
#[derive(Debug)]
pub enum Expression {
    ConstUse(Name),
    /// `self`, with the scope it is used in.
    SelfRef(ScopeId),
    Literal { kind: LiteralKind, lexeme: Vec<u8> },
    StructInit { name: Name, parameters: Vec<Parameter>, init_content: Option<StructInitContent> },
    ChainingMethodInvocation { receiver: Box<Expression>, accessors: Vec<Accessor> },
    FieldAccess { receiver: Box<Expression>, field_names: Vec<Ident> },
    Block(Block),
    Collection(Vec<Expression>),
    Void,
}

/// `const name = value`.
#[derive(Debug)]
pub struct ConstantDeclaration {
    pub name: Ident,
    pub value: Expression,
}

/// The declared type of a field: a name, possibly in brackets for a collection.
#[derive(Debug)]
pub struct Type {
    pub name: Name,
    pub is_collection: bool,
}

/// A field of a struct or a requirement of a trait.
#[derive(Debug)]
pub struct Field {
    pub name: Ident,
    pub field_type: Type,
    pub default_value: Option<Expression>,
}

/// The body of a struct: its constant attributes, by their index in the tree's constants.
#[derive(Debug)]
pub struct StructBody {
    pub attributes: Vec<usize>,
    pub scope: ScopeId,
}

/// `struct Name(fields) { attributes }`.
#[derive(Debug)]
pub struct StructDeclaration {
    pub name: Ident,
    pub fields: Vec<Field>,
    pub body: Option<StructBody>,
}

/// `trait Name(required fields)`.
#[derive(Debug)]
pub struct TraitDeclaration {
    pub name: Ident,
    pub required: Vec<Field>,
}

/// `use a.b`, `use a.*`, `use a.{ b, c.d }`.
#[derive(Debug)]
pub enum Import {
    Single(Vec<Ident>),
    Wildcard(Vec<Ident>),
    Multiple { prefix: Vec<Ident>, suffices: Vec<Vec<Ident>> },
}

/// A declaration at the top of a file; constants, structs and traits by their index in the
/// tree's arenas.
#[derive(Debug)]
pub enum Declaration {
    Constant(usize),
    Struct(usize),
    Trait(usize),
    Import(Import),
}

impl Declaration {
    /// The index of the constant it declares, if it declares one.
    pub fn as_constant(&self) -> (r: Option<usize>)
        ensures
            r == match self {
                Declaration::Constant(i) => Some(*i),
                _ => None,
            },
    {
        match self {
            Declaration::Constant(i) => Some(*i),
            _ => None,
        }
    }

    /// The index of the struct it declares, if it declares one.
    pub fn as_struct(&self) -> (r: Option<usize>)
        ensures
            r == match self {
                Declaration::Struct(i) => Some(*i),
                _ => None,
            },
    {
        match self {
            Declaration::Struct(i) => Some(*i),
            _ => None,
        }
    }

    /// The index of the trait it declares, if it declares one.
    pub fn as_trait(&self) -> (r: Option<usize>)
        ensures
            r == match self {
                Declaration::Trait(i) => Some(*i),
                _ => None,
            },
    {
        match self {
            Declaration::Trait(i) => Some(*i),
            _ => None,
        }
    }
}

/// The declarations of a file, in their order.
#[derive(Debug)]
pub struct CompilationUnit {
    pub declarations: Vec<Declaration>,
}

/// The syntax tree of a file, with the arenas its declarations refer to.
#[derive(Debug)]
pub struct AbstractSyntaxTree {
    pub compilation_unit: CompilationUnit,
    pub constants: Vec<ConstantDeclaration>,
    pub structs: Vec<StructDeclaration>,
    pub traits: Vec<TraitDeclaration>,
}

/// Every index that a statement refers to lies in the arena of constants.
pub open spec fn statements_wf(statements: Seq<Statement>, n_constants: nat) -> bool {
    forall|i: int|
        0 <= i < statements.len() ==> match #[trigger] statements[i] {
            Statement::ConstantDeclaration(c) => c < n_constants,
            _ => true,
        }
}

/// Every index that an expression refers to lies in the arena of constants.
pub open spec fn expression_wf(e: Expression, n_constants: nat) -> bool
    decreases e,
{
    match e {
        Expression::StructInit { parameters, init_content, .. } => {
            &&& forall|i: int|
                0 <= i < parameters.len() ==> parameter_wf(#[trigger] parameters@[i], n_constants)
            &&& match init_content {
                Some(c) => forall|i: int|
                    0 <= i < c.expressions.len() ==> expression_wf(
                        #[trigger] c.expressions@[i],
                        n_constants,
                    ),
                None => true,
            }
        },
        Expression::ChainingMethodInvocation { receiver, accessors } => {
            &&& expression_wf(*receiver, n_constants)
            &&& forall|i: int|
                0 <= i < accessors.len() ==> match #[trigger] accessors@[i].value {
                    Some(v) => expression_wf(v, n_constants),
                    None => true,
                }
        },
        Expression::FieldAccess { receiver, .. } => expression_wf(*receiver, n_constants),
        Expression::Block(b) => {
            &&& statements_wf(b.statements@, n_constants)
            &&& forall|i: int|
                0 <= i < b.statements.len() ==> match #[trigger] b.statements@[i] {
                    Statement::Expression(e) => expression_wf(e, n_constants),
                    _ => true,
                }
        },
        Expression::Collection(elements) => forall|i: int|
            0 <= i < elements.len() ==> expression_wf(#[trigger] elements@[i], n_constants),
        _ => true,
    }
}

/// Every index that a parameter refers to lies in the arena of constants.
pub open spec fn parameter_wf(p: Parameter, n_constants: nat) -> bool
    decreases p,
{
    match p {
        Parameter::Plain(v) => expression_wf(v, n_constants),
        Parameter::Labelled { content, .. } => expression_wf(content, n_constants),
    }
}

/// Every index that a field's default value refers to lies in the arena of constants.
pub open spec fn fields_wf(fields: Seq<Field>, n_constants: nat) -> bool {
    forall|i: int|
        0 <= i < fields.len() ==> match #[trigger] fields[i].default_value {
            Some(v) => expression_wf(v, n_constants),
            None => true,
        }
}

impl AbstractSyntaxTree {
    /// Every index in the tree lies in the arena it refers to.
    pub open spec fn wf(&self) -> bool {
        let nc = self.constants@.len();
        &&& forall|i: int|
            0 <= i < self.compilation_unit.declarations.len() ==> match #[trigger] self.compilation_unit.declarations@[i] {
                Declaration::Constant(c) => c < nc,
                Declaration::Struct(s) => s < self.structs@.len(),
                Declaration::Trait(t) => t < self.traits@.len(),
                Declaration::Import(_) => true,
            }
        &&& forall|i: int|
            0 <= i < nc ==> expression_wf(#[trigger] self.constants@[i].value, nc)
        &&& forall|i: int|
            0 <= i < self.structs@.len() ==> {
                &&& fields_wf(#[trigger] self.structs@[i].fields@, nc)
                &&& match self.structs@[i].body {
                    Some(b) => forall|j: int| 0 <= j < b.attributes.len() ==> #[trigger] b.attributes@[j] < nc,
                    None => true,
                }
            }
        &&& forall|i: int|
            0 <= i < self.traits@.len() ==> fields_wf(#[trigger] self.traits@[i].required@, nc)
    }
}

/// An expression whose indices lie in an arena of `n` constants has them in any larger
/// arena.
pub proof fn lemma_expression_wf_grows(e: Expression, n: nat, m: nat)
    requires
        expression_wf(e, n),
        n <= m,
    ensures
        expression_wf(e, m),
    decreases e,
{
    match e {
        Expression::StructInit { parameters, init_content, .. } => {
            assert forall|i: int| 0 <= i < parameters.len() implies parameter_wf(#[trigger] parameters@[i], m) by {
                assert(parameter_wf(parameters@[i], n));
                match parameters@[i] {
                    Parameter::Plain(v) => lemma_expression_wf_grows(v, n, m),
                    Parameter::Labelled { content, .. } => lemma_expression_wf_grows(content, n, m),
                }
            }
            match init_content {
                Some(c) => {
                    assert forall|i: int| 0 <= i < c.expressions.len() implies expression_wf(#[trigger] c.expressions@[i], m) by {
                        lemma_expression_wf_grows(c.expressions@[i], n, m);
                    }
                },
                None => {},
            }
        },
        Expression::ChainingMethodInvocation { receiver, accessors } => {
            lemma_expression_wf_grows(*receiver, n, m);
            assert forall|i: int| 0 <= i < accessors.len() implies match #[trigger] accessors@[i].value {
                Some(v) => expression_wf(v, m),
                None => true,
            } by {
                match accessors@[i].value {
                    Some(v) => lemma_expression_wf_grows(v, n, m),
                    None => {},
                }
            }
        },
        Expression::FieldAccess { receiver, .. } => lemma_expression_wf_grows(*receiver, n, m),
        Expression::Block(b) => {
            assert forall|i: int| 0 <= i < b.statements.len() implies match #[trigger] b.statements@[i] {
                Statement::Expression(x) => expression_wf(x, m),
                _ => true,
            } by {
                match b.statements@[i] {
                    Statement::Expression(x) => lemma_expression_wf_grows(x, n, m),
                    _ => {},
                }
            }
        },
        Expression::Collection(elements) => {
            assert forall|i: int| 0 <= i < elements.len() implies expression_wf(#[trigger] elements@[i], m) by {
                lemma_expression_wf_grows(elements@[i], n, m);
            }
        },
        _ => {},
    }
}

/// Fields whose default values lie in an arena of `n` constants have them in any larger
/// arena.
pub proof fn lemma_fields_wf_grows(fields: Seq<Field>, n: nat, m: nat)
    requires
        fields_wf(fields, n),
        n <= m,
    ensures
        fields_wf(fields, m),
{
    assert forall|i: int| 0 <= i < fields.len() implies match #[trigger] fields[i].default_value {
        Some(v) => expression_wf(v, m),
        None => true,
    } by {
        match fields[i].default_value {
            Some(v) => lemma_expression_wf_grows(v, n, m),
            None => {},
        }
    }
}

} // verus!
