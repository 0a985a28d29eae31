//! Whether a value of one type conforms to another: the same type, or every field of the
//! target trait with the same name and the same type.
use crate::env::checks::type_checking::types::Types;
use crate::env::construction::scope_operations::MAX_NESTING;
use crate::env::error::EnvError;
use crate::env::name_resolution::type_checking::type_checker::{field_same, fields_match_exactly, has_trait_fields, TypeChecker};
use vstd::prelude::*;

verus! {

/// Checks conformance with the state of a type checker, which finds the types of the
/// attributes it meets.
pub struct TypeConformChecker<'c, 'e>(pub &'c mut TypeChecker<'e>);

impl<'c, 'e> TypeConformChecker<'c, 'e> {
    /// Whether the source conforms to the target: the same type, or, for a target trait,
    /// a type that has each field the trait requires, of the same type.
    pub fn conforms(&mut self, source: &Types, target: &Types) -> (res: Result<bool, EnvError>)
        requires
            old(self).0.environment.wf(),
        ensures
            *source == *target ==> res == Ok::<bool, EnvError>(true),
            *source != *target && !(*target is Trait) ==> res == Ok::<bool, EnvError>(false),
            res == Ok::<bool, EnvError>(true) && *source != *target ==> has_trait_fields(old(self).0.syntax_trees@, *source, *target),
            res == Ok::<bool, EnvError>(true) && *source != *target ==> forall|i: int|
                0 <= i < target.spec_fields(old(self).0.syntax_trees@).len() ==> field_same(
                    old(self).0.environment,
                    old(self).0.syntax_trees@,
                    *source,
                    #[trigger] target.spec_fields(old(self).0.syntax_trees@)[i],
                ),
            *source != *target && *target is Trait && fields_match_exactly(
                old(self).0.environment,
                old(self).0.syntax_trees@,
                *source,
                *target,
            ) ==> res == Ok::<bool, EnvError>(true),
            final(self).0.environment == old(self).0.environment,
            final(self).0.syntax_trees == old(self).0.syntax_trees,
    {
        let environment = self.0.environment;
        let syntax_trees = self.0.syntax_trees;
        self.0.state.conforms(environment, syntax_trees, *source, *target, MAX_NESTING)
    }
}

} // verus!
