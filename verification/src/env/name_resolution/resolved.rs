//! What a name stands for once it is resolved.
use crate::ast::{DeclId, ScopeId};
use crate::env::scope::DeclaredElement;
use crate::names::{copy_path, path_view, Ident};
use vstd::prelude::*;

verus! {

/// What a name stands for.
#[derive(Debug)]
pub enum Resolved {
    Module(ScopeId),
    Constant(DeclId),
    Struct(DeclId),
    Trait(DeclId),
    /// A constant followed by the fields and attributes accessed on it.
    InstanceAccess(DeclId, Vec<Ident>),
}

/// The spec value of a resolved name: fields accessed taken as their bytes.
pub enum SpecResolved {
    Module(ScopeId),
    Constant(DeclId),
    Struct(DeclId),
    Trait(DeclId),
    InstanceAccess(DeclId, Seq<Seq<u8>>),
}

impl Resolved {
    pub open spec fn spec(&self) -> SpecResolved {
        match self {
            Resolved::Module(s) => SpecResolved::Module(*s),
            Resolved::Constant(d) => SpecResolved::Constant(*d),
            Resolved::Struct(d) => SpecResolved::Struct(*d),
            Resolved::Trait(d) => SpecResolved::Trait(*d),
            Resolved::InstanceAccess(d, p) => SpecResolved::InstanceAccess(*d, path_view(p@)),
        }
    }

    /// A fresh copy.
    pub fn duplicate(&self) -> (r: Resolved)
        ensures
            r.spec() == self.spec(),
    {
        match self {
            Resolved::Module(s) => Resolved::Module(*s),
            Resolved::Constant(d) => Resolved::Constant(*d),
            Resolved::Struct(d) => Resolved::Struct(*d),
            Resolved::Trait(d) => Resolved::Trait(*d),
            Resolved::InstanceAccess(d, p) => Resolved::InstanceAccess(*d, copy_path(p.as_slice())),
        }
    }

    /// What a declared element stands for.
    pub fn from_declared(declared: DeclaredElement) -> (r: Resolved)
        ensures
            r.spec() == SpecResolved::from_declared(declared),
    {
        match declared {
            DeclaredElement::Constant(d) => Resolved::Constant(d),
            DeclaredElement::Struct(d) => Resolved::Struct(d),
            DeclaredElement::Trait(d) => Resolved::Trait(d),
        }
    }

    /// The constant it names, if it names one.
    pub fn as_constant(&self) -> (r: Option<DeclId>)
        ensures
            r == match self {
                Resolved::Constant(d) => Some(*d),
                _ => None,
            },
    {
        match self {
            Resolved::Constant(d) => Some(*d),
            _ => None,
        }
    }

    /// The struct it names, if it names one.
    pub fn as_struct(&self) -> (r: Option<DeclId>)
        ensures
            r == match self {
                Resolved::Struct(d) => Some(*d),
                _ => None,
            },
    {
        match self {
            Resolved::Struct(d) => Some(*d),
            _ => None,
        }
    }
}

impl SpecResolved {
    pub open spec fn from_declared(declared: DeclaredElement) -> SpecResolved {
        match declared {
            DeclaredElement::Constant(d) => SpecResolved::Constant(d),
            DeclaredElement::Struct(d) => SpecResolved::Struct(d),
            DeclaredElement::Trait(d) => SpecResolved::Trait(d),
        }
    }
}

} // verus!
