//! Whether a type of `std.essential.Render` may stand where a trait of `std.essential` is
//! expected.
use crate::ast::AbstractSyntaxTree;
use crate::env::checks::type_checking::types::Types;
use crate::env::environment::Environment;
use crate::env::module_verifier::{spec_in_module, std_essential, std_essential_render, ModuleVerifier};
use crate::env::scope::DeclaredElement;
use vstd::prelude::*;

verus! {

/// The type is a trait declared in `std.essential`.
pub open spec fn spec_in_essential(env: &Environment, trees: Seq<AbstractSyntaxTree>, t: Types) -> bool {
    match t {
        Types::Trait(d) => spec_in_module(env, trees, DeclaredElement::Trait(d), std_essential()),
        _ => false,
    }
}

/// The type is a struct or trait declared in `std.essential.Render`.
pub open spec fn spec_in_essential_render(env: &Environment, trees: Seq<AbstractSyntaxTree>, t: Types) -> bool {
    match t {
        Types::Trait(d) => spec_in_module(env, trees, DeclaredElement::Trait(d), std_essential_render()),
        Types::Struct(d) => spec_in_module(env, trees, DeclaredElement::Struct(d), std_essential_render()),
        _ => false,
    }
}

/// Checks types of `std.essential.Render` against traits of `std.essential`.
pub struct RenderImplChecker<'e> {
    pub environment: &'e Environment,
    pub syntax_trees: &'e Vec<AbstractSyntaxTree>,
}

impl<'e> RenderImplChecker<'e> {
    /// Whether the source, a struct or trait of `std.essential.Render`, goes where the
    /// target, a trait of `std.essential`, is expected.
    pub fn check(self, source: &Types, target: &Types) -> (r: bool)
        requires
            self.environment.wf(),
        ensures
            r == (spec_in_essential(self.environment, self.syntax_trees@, *target)
                && spec_in_essential_render(self.environment, self.syntax_trees@, *source)),
    {
        self.is_in_essential(target) && self.is_in_essential_render(source)
    }

    /// Whether the type is a trait of `std.essential`.
    pub fn is_in_essential(&self, source_type: &Types) -> (r: bool)
        requires
            self.environment.wf(),
        ensures
            r == spec_in_essential(self.environment, self.syntax_trees@, *source_type),
    {
        match source_type {
            Types::Trait(t) => ModuleVerifier::with_environment(self.environment, self.syntax_trees).in_essential(
                DeclaredElement::Trait(*t),
            ),
            _ => false,
        }
    }

    /// Whether the type is a struct or trait of `std.essential.Render`.
    pub fn is_in_essential_render(&self, source_type: &Types) -> (r: bool)
        requires
            self.environment.wf(),
        ensures
            r == spec_in_essential_render(self.environment, self.syntax_trees@, *source_type),
    {
        let verifier = ModuleVerifier::with_environment(self.environment, self.syntax_trees);
        match source_type {
            Types::Trait(t) => verifier.in_render(DeclaredElement::Trait(*t)),
            Types::Struct(s) => verifier.in_render(DeclaredElement::Struct(*s)),
            _ => false,
        }
    }
}

} // verus!
