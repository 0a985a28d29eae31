//! Tells whether a declaration is the one that a module of the standard library declares.
use crate::ast::{AbstractSyntaxTree, GLOBAL_SCOPE};
use crate::env::environment::{module_at, Environment};
use crate::env::scope::DeclaredElement;
use crate::names::{path_view, Ident};
use vstd::prelude::*;

verus! {

/// The path `std.essential`.
pub open spec fn std_essential() -> Seq<Seq<u8>> {
    seq![seq![115u8, 116, 100], seq![101u8, 115, 115, 101, 110, 116, 105, 97, 108]]
}

/// The path `std.essential.Render`.
pub open spec fn std_essential_render() -> Seq<Seq<u8>> {
    std_essential().push(seq![82u8, 101, 110, 100, 101, 114])
}

/// The path `std.essential`.
pub fn std_essential_path() -> (p: Vec<Ident>)
    ensures
        path_view(p@) == std_essential(),
{
    let p: Vec<Ident> = vec![vec![115u8, 116, 100], vec![101u8, 115, 115, 101, 110, 116, 105, 97, 108]];
    assert(p@[0]@ =~= seq![115u8, 116, 100]);
    assert(p@[1]@ =~= seq![101u8, 115, 115, 101, 110, 116, 105, 97, 108]);
    assert(path_view(p@) =~= std_essential());
    p
}

/// The path `std.essential.Render`.
pub fn std_essential_render_path() -> (p: Vec<Ident>)
    ensures
        path_view(p@) == std_essential_render(),
{
    let mut p = std_essential_path();
    let render: Vec<u8> = vec![82u8, 101, 110, 100, 101, 114];
    assert(render@ =~= seq![82u8, 101, 110, 100, 101, 114]);
    p.push(render);
    assert(path_view(p@) =~= std_essential_render());
    p
}

/// Whether the declared element exists in the trees.
pub fn declared_valid(declared: DeclaredElement, trees: &Vec<AbstractSyntaxTree>) -> (r: bool)
    ensures
        r == declared.valid(trees@),
{
    match declared {
        DeclaredElement::Constant(d) => d.tree < trees.len() && d.index < trees[d.tree].constants.len(),
        DeclaredElement::Struct(d) => d.tree < trees.len() && d.index < trees[d.tree].structs.len(),
        DeclaredElement::Trait(d) => d.tree < trees.len() && d.index < trees[d.tree].traits.len(),
    }
}

/// Whether the element is what its name stands for in the module at the path.
pub open spec fn spec_in_module(env: &Environment, trees: Seq<AbstractSyntaxTree>, declared: DeclaredElement, module: Seq<Seq<u8>>) -> bool {
    &&& declared.valid(trees)
    &&& module_at(env.scopes@, GLOBAL_SCOPE, module) matches Some(s)
    &&& s < env.scopes@.len()
    &&& env.scopes@[s as int].name_spaces.declared.get_spec(declared.spec_name(trees)) == Some(declared)
}

/// Checks where declarations come from.
pub struct ModuleVerifier<'e> {
    pub environment: &'e Environment,
    pub syntax_trees: &'e Vec<AbstractSyntaxTree>,
}

impl<'e> ModuleVerifier<'e> {
    pub fn with_environment(environment: &'e Environment, syntax_trees: &'e Vec<AbstractSyntaxTree>) -> (v: Self)
        ensures
            v.environment == environment,
            v.syntax_trees == syntax_trees,
    {
        ModuleVerifier { environment, syntax_trees }
    }

    /// Whether the element is declared in `std.essential`.
    pub fn in_essential(&self, declared: DeclaredElement) -> (r: bool)
        requires
            self.environment.wf(),
        ensures
            r == spec_in_module(self.environment, self.syntax_trees@, declared, std_essential()),
    {
        self.is_in_module(declared, std_essential_path().as_slice())
    }

    /// Whether the element is declared in `std.essential.Render`.
    pub fn in_render(&self, declared: DeclaredElement) -> (r: bool)
        requires
            self.environment.wf(),
        ensures
            r == spec_in_module(self.environment, self.syntax_trees@, declared, std_essential_render()),
    {
        self.is_in_module(declared, std_essential_render_path().as_slice())
    }

    fn is_in_module(&self, declared: DeclaredElement, module_name: &[Ident]) -> (r: bool)
        requires
            self.environment.wf(),
        ensures
            r == spec_in_module(self.environment, self.syntax_trees@, declared, path_view(module_name@)),
    {
        if !declared_valid(declared, self.syntax_trees) {
            return false;
        }
        let name = declared.name(self.syntax_trees);
        match self.environment.find_module(module_name) {
            Some(scope_id) => {
                match self.environment.get_scope(scope_id).name_spaces.declared.get(name) {
                    Some(found) => *found == declared,
                    None => false,
                }
            },
            None => false,
        }
    }
}

} // verus!
