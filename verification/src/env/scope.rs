//! Scopes and the names they declare.
use crate::ast::{AbstractSyntaxTree, DeclId, ScopeId};
use crate::names::{Ident, NameTable};
use vstd::prelude::*;

verus! {

/// Something used in a scope that it records.
pub trait Scoped {
    /// The scope recorded.
    spec fn scope_of(&self) -> ScopeId;

    /// Records the scope.
    fn set_scope(&mut self, scope: ScopeId)
        ensures
            final(self).scope_of() == scope,
    ;

    /// The scope recorded.
    fn scope(&self) -> (s: ScopeId)
        ensures
            s == self.scope_of(),
    ;
}


/// A declaration that a name of a scope stands for.
#[derive(Clone, Copy, Debug, PartialEq, Eq, Structural)]
pub enum DeclaredElement {
    Constant(DeclId),
    Struct(DeclId),
    Trait(DeclId),
}

impl DeclaredElement {
    /// The declaration it stands for.
    pub open spec fn decl(&self) -> DeclId {
        match self {
            DeclaredElement::Constant(d) => *d,
            DeclaredElement::Struct(d) => *d,
            DeclaredElement::Trait(d) => *d,
        }
    }

    /// It stands for a declaration that the trees hold.
    pub open spec fn valid(&self, trees: Seq<AbstractSyntaxTree>) -> bool {
        let d = self.decl();
        &&& 0 <= d.tree < trees.len()
        &&& match self {
            DeclaredElement::Constant(_) => d.index < trees[d.tree as int].constants@.len(),
            DeclaredElement::Struct(_) => d.index < trees[d.tree as int].structs@.len(),
            DeclaredElement::Trait(_) => d.index < trees[d.tree as int].traits@.len(),
        }
    }

    /// The name of the declaration, as its bytes.
    pub open spec fn spec_name(&self, trees: Seq<AbstractSyntaxTree>) -> Seq<u8> {
        let d = self.decl();
        match self {
            DeclaredElement::Constant(_) => trees[d.tree as int].constants@[d.index as int].name@,
            DeclaredElement::Struct(_) => trees[d.tree as int].structs@[d.index as int].name@,
            DeclaredElement::Trait(_) => trees[d.tree as int].traits@[d.index as int].name@,
        }
    }

    /// The name of the declaration.
    pub fn name<'t>(&self, trees: &'t Vec<AbstractSyntaxTree>) -> (n: &'t Ident)
        requires
            self.valid(trees@),
        ensures
            n@ == self.spec_name(trees@),
    {
        match self {
            DeclaredElement::Constant(d) => &trees[d.tree].constants[d.index].name,
            DeclaredElement::Struct(d) => &trees[d.tree].structs[d.index].name,
            DeclaredElement::Trait(d) => &trees[d.tree].traits[d.index].name,
        }
    }
}

/// The three name spaces of a scope.
pub struct NameSpaces {
    /// Modules that the scope can name, and their scopes.
    pub modules: NameTable<ScopeId>,
    /// Scopes whose declarations the scope sees through `use module.*`, in the order of
    /// the imports; none occurs twice.
    pub wildcard_imports: Vec<ScopeId>,
    /// Constants, structs and traits that the scope can name.
    pub declared: NameTable<DeclaredElement>,
}

impl NameSpaces {
    /// Name spaces that hold nothing.
    pub fn new() -> (n: NameSpaces)
        ensures
            n.modules.entries@.len() == 0,
            n.declared.entries@.len() == 0,
            n.wildcard_imports@.len() == 0,
            forall|k: Seq<u8>| #[trigger] n.modules.get_spec(k) is None,
            forall|k: Seq<u8>| #[trigger] n.declared.get_spec(k) is None,
    {
        NameSpaces {
            modules: NameTable::new(),
            wildcard_imports: Vec::new(),
            declared: NameTable::new(),
        }
    }
}

/// A scope: a module, a struct body, a block or the content of a struct initialization.
pub struct Scope {
    pub parent: ScopeId,
    pub id: ScopeId,
    pub name_spaces: NameSpaces,
}

impl Scope {
    /// The global scope: id 0, with no parent.
    pub fn global() -> (s: Scope)
        ensures
            s.id == 0,
            s.parent == usize::MAX,
            s.name_spaces.modules.entries@.len() == 0,
            s.name_spaces.declared.entries@.len() == 0,
            s.name_spaces.wildcard_imports@.len() == 0,
    {
        Scope { parent: usize::MAX, id: 0, name_spaces: NameSpaces::new() }
    }
}

} // verus!
