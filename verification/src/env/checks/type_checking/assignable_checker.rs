//! Whether a value of one type can be assigned where another is expected.
use crate::env::checks::type_checking::types::Types;
use crate::env::error::EnvError;
use crate::env::checks::type_checking::render_impl_checker::{spec_in_essential, spec_in_essential_render};
use crate::env::name_resolution::type_checking::type_checker::{
    empty_assignability, fields_match_exactly, fits_by_fields, has_trait_fields, render_fits, TypeChecker,
};
use crate::env::construction::scope_operations::MAX_NESTING;
use vstd::prelude::*;

verus! {

/// Checks assignability with the state of a type checker, which finds the types of the
/// attributes it meets.
pub struct AssignableChecker<'c, 'e>(pub &'c mut TypeChecker<'e>);

impl<'c, 'e> AssignableChecker<'c, 'e> {
    /// Whether a field of the target type can hold a value of the source type: the same
    /// type; `Void` for a collection; a type that has every field of the target trait with
    /// an assignable type; or a type of `std.essential` that is `Render` for the target.
    pub fn check(&mut self, source: &Types, target: &Types) -> (res: Result<bool, EnvError>)
        requires
            old(self).0.environment.wf(),
        ensures
            *source == *target ==> res == Ok::<bool, EnvError>(true),
            empty_assignability(*source, *target) ==> res == Ok::<bool, EnvError>(true),
            res == Ok::<bool, EnvError>(true) ==> *source == *target || empty_assignability(*source, *target) || (*target is Trait
                && has_trait_fields(old(self).0.syntax_trees@, *source, *target)) || (spec_in_essential(
                old(self).0.environment,
                old(self).0.syntax_trees@,
                *target,
            ) && spec_in_essential_render(old(self).0.environment, old(self).0.syntax_trees@, *source)),
            final(self).0.environment == old(self).0.environment,
            final(self).0.syntax_trees == old(self).0.syntax_trees,
            res == Ok::<bool, EnvError>(false) ==> *source != *target && !empty_assignability(*source, *target)
                && !render_fits(old(self).0.environment, old(self).0.syntax_trees@, *source, *target),
            *source != *target && !empty_assignability(*source, *target) && !(*target is Trait) ==> res == Ok::<bool, EnvError>(
                render_fits(old(self).0.environment, old(self).0.syntax_trees@, *source, *target),
            ),
            *source != *target && !empty_assignability(*source, *target) && *target is Trait
                && !old(self).0.state.checking_conformance@.contains((*source, *target)) && fields_match_exactly(
                old(self).0.environment,
                old(self).0.syntax_trees@,
                *source,
                *target,
            ) ==> res == Ok::<bool, EnvError>(true),
            fits_by_fields(
                old(self).0.environment,
                old(self).0.syntax_trees@,
                *source,
                *target,
                MAX_NESTING as nat,
                old(self).0.state.checking_conformance@,
            ) ==> res == Ok::<bool, EnvError>(true),
    {
        let environment = self.0.environment;
        let syntax_trees = self.0.syntax_trees;
        self.0.state.assignable(environment, syntax_trees, *source, *target, MAX_NESTING)
    }
}

} // verus!
