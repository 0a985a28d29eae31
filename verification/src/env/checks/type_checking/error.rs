//! Why the content between the braces of a struct initialization is refused.
use vstd::prelude::*;

verus! {

/// Why the content of a struct initialization is refused. The content goes to the last
/// field of the struct, which must be a collection of `Render`.
#[derive(Debug, PartialEq, Eq)]
pub enum Error {
    /// Content given to a struct without fields.
    NotExpectingChildren,
    /// A value of the content whose type, given by its text, cannot be assigned to `Render`.
    InitContentNotRender(Vec<u8>),
    /// Content given to a struct whose last field is not a collection of `Render`.
    LastFieldIsNotChildren,
}

} // verus!
