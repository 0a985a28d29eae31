//! Why building the environment of a program failed.
use crate::names::Ident;
use vstd::prelude::*;

verus! {

/// Why building the environment of a program failed. Names are given as their bytes,
/// the components of a path joined by `.`.
#[derive(Debug, PartialEq, Eq)]
pub enum EnvError {
    /// Two modules of the same name in one module.
    ConflictingModule(Ident),
    /// A module path that names no module.
    ModuleNotFound(Ident),
    /// A name declared twice in one scope.
    DuplicateDeclaration(Ident),
    /// An import of something that is neither a declaration nor a module.
    UnknownImport(Ident),
    /// The same module imported twice into one scope.
    ModuleAlreadyImported(Ident),
    /// A name that no scope declares.
    UnresolvableName(Ident),
    /// A name that more than one wildcard import provides.
    AmbiguousName(Ident),
    /// A component that the module before it does not contain.
    NotInModule(Ident),
    /// A field accessed on a struct or trait declaration rather than on a value.
    FieldOfTypeDefinition(Ident),
    /// A type name that names something other than a struct or a trait.
    NotAType(Ident),
    /// A type name that names nothing.
    UnresolvableType(Ident),
    /// A name whose value depends on itself.
    CycleReference(Ident),
    /// A constant whose value is a module, a struct or a trait.
    NotAValue(Ident),
    /// `self` outside the body of a struct.
    SelfOutsideStruct,
    /// A field or attribute that the type does not have.
    FieldNotFound(Ident),
    /// A value whose type cannot be assigned where it is used.
    TypeMismatch { expected: Ident, found: Ident },
    /// A chaining method without argument on a field without default value.
    NoDefaultValue(Ident),
    /// Parameters of a struct initialization that do not fit its fields.
    StructInit(crate::env::name_resolution::type_checking::struct_init_checker::Error),
    /// Content of a struct initialization that its struct does not take.
    InitContent(crate::env::checks::type_checking::error::Error),
    /// Plain parameters left over once the fields are used up.
    UnmatchedParameters,
    /// Labelled and plain parameters mixed in one struct initialization.
    MixedParameters,
    /// A struct that contains itself.
    StructHierarchy(crate::env::checks::Error),
    /// `Main` declared as something other than a constant.
    EntryNotConstant,
    /// No `Main` in the global scope.
    EntryNotDeclared,
    /// No trait `Render` in `std.essential`.
    RenderNotFound,
    /// Values nested deeper than the checker follows.
    NestingTooDeep,
    /// Names that do not belong to the stage they are used in.
    InvalidState,
}

} // verus!
