//! The types of values.
use crate::ast::{AbstractSyntaxTree, DeclId, Field};
use crate::names::bytes_eq;
use vstd::prelude::*;

verus! {

/// The primitive types.
#[derive(Clone, Copy, Debug, PartialEq, Eq, Structural)]
pub enum Primitive {
    Void,
    Int,
    Float,
    Bool,
    String,
}

/// A type: a primitive, a struct or a trait, or a collection of one of them.
#[derive(Clone, Copy, Debug, PartialEq, Eq, Structural)]
pub enum Types {
    Primitive(Primitive),
    Struct(DeclId),
    Trait(DeclId),
    PrimitiveCollection(Primitive),
    StructCollection(DeclId),
    TraitCollection(DeclId),
}

/// A field of a struct or a requirement of a trait: the declaration, whether it is a trait,
/// and the index of the field there.
#[derive(Clone, Copy, Debug, PartialEq, Eq, Structural)]
pub struct FieldId {
    pub owner: DeclId,
    pub in_trait: bool,
    pub index: usize,
}

/// What a name accessed on a value stands for: one of its fields or one of its attributes.
#[derive(Clone, Copy, Debug, PartialEq, Eq, Structural)]
pub enum TypedElement {
    Constant(DeclId),
    Field(FieldId),
}

/// The index of the first key that is the name, if any.
pub open spec fn first_match(keys: Seq<Option<Seq<u8>>>, name: Seq<u8>) -> Option<int>
    decreases keys.len(),
{
    if keys.len() == 0 {
        None
    } else {
        match first_match(keys.drop_last(), name) {
            Some(i) => Some(i),
            None => if keys.last() == Some(name) {
                Some(keys.len() - 1)
            } else {
                None
            },
        }
    }
}

/// The name of a primitive type.
pub open spec fn spec_primitive_name(p: Primitive) -> Seq<u8> {
    match p {
        Primitive::Void => seq![86u8, 111, 105, 100],
        Primitive::Int => seq![73u8, 110, 116],
        Primitive::Float => seq![70u8, 108, 111, 97, 116],
        Primitive::Bool => seq![66u8, 111, 111, 108],
        Primitive::String => seq![83u8, 116, 114, 105, 110, 103],
    }
}

/// How a type is written in messages that do not know the declarations: a primitive by
/// its name, a struct as `Struct`, a trait as `Trait`, a collection in brackets.
pub open spec fn spec_type_label(t: Types) -> Seq<u8> {
    match t {
        Types::Primitive(p) => spec_primitive_name(p),
        Types::Struct(_) => seq![83u8, 116, 114, 117, 99, 116],
        Types::Trait(_) => seq![84u8, 114, 97, 105, 116],
        Types::PrimitiveCollection(p) => seq![91u8] + spec_primitive_name(p) + seq![93u8],
        Types::StructCollection(_) => seq![91u8] + seq![83u8, 116, 114, 117, 99, 116] + seq![93u8],
        Types::TraitCollection(_) => seq![91u8] + seq![84u8, 114, 97, 105, 116] + seq![93u8],
    }
}

/// The name of a primitive type.
pub fn primitive_name(p: Primitive) -> (r: Vec<u8>)
    ensures
        r@ == spec_primitive_name(p),
{
    let r = match p {
        Primitive::Void => vec![86u8, 111, 105, 100],
        Primitive::Int => vec![73u8, 110, 116],
        Primitive::Float => vec![70u8, 108, 111, 97, 116],
        Primitive::Bool => vec![66u8, 111, 111, 108],
        Primitive::String => vec![83u8, 116, 114, 105, 110, 103],
    };
    assert(r@ =~= spec_primitive_name(p));
    r
}

/// How a type is written in messages that do not know the declarations.
pub fn type_label(t: Types) -> (r: Vec<u8>)
    ensures
        r@ == spec_type_label(t),
{
    let (inner, collection) = match t {
        Types::Primitive(p) => (primitive_name(p), false),
        Types::Struct(_) => (vec![83u8, 116, 114, 117, 99, 116], false),
        Types::Trait(_) => (vec![84u8, 114, 97, 105, 116], false),
        Types::PrimitiveCollection(p) => (primitive_name(p), true),
        Types::StructCollection(_) => (vec![83u8, 116, 114, 117, 99, 116], true),
        Types::TraitCollection(_) => (vec![84u8, 114, 97, 105, 116], true),
    };
    if collection {
        let mut r: Vec<u8> = vec![91u8];
        let mut inner = inner;
        r.append(&mut inner);
        r.push(93u8);
        assert(r@ =~= spec_type_label(t));
        r
    } else {
        assert(inner@ =~= spec_type_label(t));
        inner
    }
}

/// The name that a declaration of a type was given; for an id that names no declaration,
/// the label of the type.
pub open spec fn spec_declared_name(trees: Seq<AbstractSyntaxTree>, d: DeclId, is_trait: bool, t: Types) -> Seq<u8> {
    if d.tree < trees.len() && !is_trait && d.index < trees[d.tree as int].structs@.len() {
        trees[d.tree as int].structs@[d.index as int].name@
    } else if d.tree < trees.len() && is_trait && d.index < trees[d.tree as int].traits@.len() {
        trees[d.tree as int].traits@[d.index as int].name@
    } else {
        spec_type_label(t)
    }
}

/// How a type is written in messages: a primitive by its name, a struct or trait by the
/// name it is declared with, a collection in brackets.
pub open spec fn spec_display_type(trees: Seq<AbstractSyntaxTree>, t: Types) -> Seq<u8> {
    match t {
        Types::Primitive(_) | Types::PrimitiveCollection(_) => spec_type_label(t),
        Types::Struct(d) => spec_declared_name(trees, d, false, t),
        Types::Trait(d) => spec_declared_name(trees, d, true, t),
        Types::StructCollection(d) => seq![91u8] + spec_declared_name(trees, d, false, t) + seq![93u8],
        Types::TraitCollection(d) => seq![91u8] + spec_declared_name(trees, d, true, t) + seq![93u8],
    }
}

/// How a type is written in messages: a primitive by its name, a struct or trait by the
/// name it is declared with, a collection in brackets.
pub fn display_type(trees: &Vec<AbstractSyntaxTree>, t: Types) -> (r: Vec<u8>)
    ensures
        r@ == spec_display_type(trees@, t),
{
    let (decl, is_trait, collection) = match t {
        Types::Primitive(_) | Types::PrimitiveCollection(_) => {
            return type_label(t);
        },
        Types::Struct(d) => (d, false, false),
        Types::Trait(d) => (d, true, false),
        Types::StructCollection(d) => (d, false, true),
        Types::TraitCollection(d) => (d, true, true),
    };
    let mut name = if decl.tree < trees.len() && !is_trait && decl.index < trees[decl.tree].structs.len() {
        crate::names::copy_bytes(trees[decl.tree].structs[decl.index].name.as_slice())
    } else if decl.tree < trees.len() && is_trait && decl.index < trees[decl.tree].traits.len() {
        crate::names::copy_bytes(trees[decl.tree].traits[decl.index].name.as_slice())
    } else {
        type_label(t)
    };
    let ghost declared = name@;
    if collection {
        let mut r: Vec<u8> = vec![91u8];
        r.append(&mut name);
        r.push(93u8);
        assert(r@ =~= seq![91u8] + declared + seq![93u8]);
        r
    } else {
        name
    }
}

proof fn lemma_first_match_found(keys: Seq<Option<Seq<u8>>>, name: Seq<u8>, i: int, k: int)
    requires
        0 <= i < k <= keys.len(),
        keys[i] == Some(name),
        first_match(keys.take(i), name) is None,
    ensures
        first_match(keys.take(k), name) == Some(i),
    decreases k,
{
    if k == i + 1 {
        assert(keys.take(k).drop_last() =~= keys.take(i));
    } else {
        lemma_first_match_found(keys, name, i, k - 1);
        assert(keys.take(k).drop_last() =~= keys.take(k - 1));
    }
}

/// The names of fields, as keys.
pub open spec fn field_keys(fields: Seq<Field>) -> Seq<Option<Seq<u8>>> {
    fields.map_values(|f: Field| Some(f.name@))
}

/// The names of the constants that attributes refer to, as keys.
pub open spec fn attribute_keys(constants: Seq<crate::ast::ConstantDeclaration>, attributes: Seq<usize>) -> Seq<Option<Seq<u8>>> {
    attributes.map_values(|a: usize| if a < constants.len() { Some(constants[a as int].name@) } else { None })
}

/// The index of the first field with the name, if any.
pub open spec fn first_field(fields: Seq<Field>, name: Seq<u8>) -> Option<int> {
    first_match(field_keys(fields), name)
}

/// The index of the first attribute whose constant has the name, if any.
pub open spec fn first_attribute(constants: Seq<crate::ast::ConstantDeclaration>, attributes: Seq<usize>, name: Seq<u8>) -> Option<int> {
    first_match(attribute_keys(constants, attributes), name)
}


impl Types {
    /// The fields of a struct or the requirements of a trait, where the declaration exists.
    pub open spec fn spec_fields(&self, trees: Seq<AbstractSyntaxTree>) -> Seq<Field> {
        match self {
            Types::Struct(d) => if d.tree < trees.len() && d.index < trees[d.tree as int].structs@.len() {
                trees[d.tree as int].structs@[d.index as int].fields@
            } else {
                Seq::empty()
            },
            Types::Trait(d) => if d.tree < trees.len() && d.index < trees[d.tree as int].traits@.len() {
                trees[d.tree as int].traits@[d.index as int].required@
            } else {
                Seq::empty()
            },
            _ => Seq::empty(),
        }
    }

    /// The field with the name: the first such field of a struct or trait.
    pub open spec fn spec_field(&self, trees: Seq<AbstractSyntaxTree>, name: Seq<u8>) -> Option<FieldId> {
        match self {
            Types::Struct(d) => match first_field(self.spec_fields(trees), name) {
                Some(i) => Some(FieldId { owner: *d, in_trait: false, index: i as usize }),
                None => None,
            },
            Types::Trait(d) => match first_field(self.spec_fields(trees), name) {
                Some(i) => Some(FieldId { owner: *d, in_trait: true, index: i as usize }),
                None => None,
            },
            _ => None,
        }
    }

    /// The attribute with the name: the first such constant of the body of a struct.
    pub open spec fn spec_attribute(&self, trees: Seq<AbstractSyntaxTree>, name: Seq<u8>) -> Option<DeclId> {
        match self {
            Types::Struct(d) => if d.tree < trees.len() && d.index < trees[d.tree as int].structs@.len() {
                match trees[d.tree as int].structs@[d.index as int].body {
                    Some(body) => match first_attribute(trees[d.tree as int].constants@, body.attributes@, name) {
                        Some(j) => Some(DeclId { tree: d.tree, index: body.attributes@[j] }),
                        None => None,
                    },
                    None => None,
                }
            } else {
                None
            },
            _ => None,
        }
    }

    /// The field with the name, or else the attribute with the name.
    pub open spec fn spec_access(&self, trees: Seq<AbstractSyntaxTree>, name: Seq<u8>) -> Option<TypedElement> {
        match self.spec_field(trees, name) {
            Some(f) => Some(TypedElement::Field(f)),
            None => match self.spec_attribute(trees, name) {
                Some(c) => Some(TypedElement::Constant(c)),
                None => None,
            },
        }
    }

    /// The fields of a struct or the requirements of a trait; nothing for other types.
    pub fn fields<'t>(&self, trees: &'t Vec<AbstractSyntaxTree>) -> (r: &'t [Field])
        ensures
            r@ == self.spec_fields(trees@),
    {
        match self {
            Types::Struct(d) => {
                if d.tree < trees.len() && d.index < trees[d.tree].structs.len() {
                    trees[d.tree].structs[d.index].fields.as_slice()
                } else {
                    &[]
                }
            },
            Types::Trait(d) => {
                if d.tree < trees.len() && d.index < trees[d.tree].traits.len() {
                    trees[d.tree].traits[d.index].required.as_slice()
                } else {
                    &[]
                }
            },
            _ => &[],
        }
    }

    /// The first field with the name, of a struct or trait.
    pub fn field(&self, trees: &Vec<AbstractSyntaxTree>, name: &[u8]) -> (r: Option<FieldId>)
        ensures
            r == self.spec_field(trees@, name@),
    {
        let fields = self.fields(trees);
        let mut i: usize = 0;
        while i < fields.len()
            invariant
                fields@ == self.spec_fields(trees@),
                i <= fields@.len(),
                first_match(field_keys(fields@).take(i as int), name@) is None,
            decreases fields@.len() - i,
        {
            let ghost keys = field_keys(fields@);
            proof {
                assert(keys.take(i + 1).drop_last() =~= keys.take(i as int));
            }
            if bytes_eq(fields[i].name.as_slice(), name) {
                proof {
                    assert(keys[i as int] == Some(name@));
                    lemma_first_match_found(keys, name@, i as int, keys.len() as int);
                    assert(keys.take(keys.len() as int) =~= keys);
                }
                return match self {
                    Types::Struct(d) => Some(FieldId { owner: *d, in_trait: false, index: i }),
                    Types::Trait(d) => Some(FieldId { owner: *d, in_trait: true, index: i }),
                    _ => None,
                };
            }
            i = i + 1;
        }
        assert(field_keys(fields@).take(i as int) =~= field_keys(fields@));
        None
    }

    /// The first attribute with the name, of a struct with a body.
    pub fn attribute(&self, trees: &Vec<AbstractSyntaxTree>, name: &[u8]) -> (r: Option<DeclId>)
        ensures
            r == self.spec_attribute(trees@, name@),
    {
        let d = match self {
            Types::Struct(d) => *d,
            _ => {
                return None;
            },
        };
        if !(d.tree < trees.len() && d.index < trees[d.tree].structs.len()) {
            return None;
        }
        let constants = &trees[d.tree].constants;
        let body = match &trees[d.tree].structs[d.index].body {
            Some(b) => b,
            None => {
                return None;
            },
        };
        let attributes = &body.attributes;
        let mut j: usize = 0;
        while j < attributes.len()
            invariant
                j <= attributes@.len(),
                *self == Types::Struct(d),
                d.tree < trees@.len(),
                d.index < trees@[d.tree as int].structs@.len(),
                trees@[d.tree as int].structs@[d.index as int].body == Some(*body),
                *attributes == body.attributes,
                *constants == trees@[d.tree as int].constants,
                first_match(attribute_keys(constants@, attributes@).take(j as int), name@) is None,
            decreases attributes@.len() - j,
        {
            let ghost keys = attribute_keys(constants@, attributes@);
            proof {
                assert(keys.take(j + 1).drop_last() =~= keys.take(j as int));
            }
            let c = attributes[j];
            if c < constants.len() && bytes_eq(constants[c].name.as_slice(), name) {
                proof {
                    assert(keys[j as int] == Some(name@));
                    lemma_first_match_found(keys, name@, j as int, keys.len() as int);
                    assert(keys.take(keys.len() as int) =~= keys);
                    assert(first_attribute(constants@, attributes@, name@) == Some(j as int));
                    assert(trees@[d.tree as int].structs@[d.index as int].body == Some(*body));
                    assert(*self == Types::Struct(d));
                }
                return Some(DeclId { tree: d.tree, index: c });
            }
            j = j + 1;
        }
        assert(attribute_keys(constants@, attributes@).take(j as int) =~= attribute_keys(constants@, attributes@));
        None
    }

    /// The first field with the name, or else the first attribute with the name.
    pub fn access(&self, trees: &Vec<AbstractSyntaxTree>, name: &[u8]) -> (r: Option<TypedElement>)
        ensures
            r == self.spec_access(trees@, name@),
    {
        match self.field(trees, name) {
            Some(f) => Some(TypedElement::Field(f)),
            None => match self.attribute(trees, name) {
                Some(c) => Some(TypedElement::Constant(c)),
                None => None,
            },
        }
    }

    /// Whether the type is a collection.
    pub open spec fn is_collection(self) -> bool {
        self is PrimitiveCollection || self is StructCollection || self is TraitCollection
    }

    /// The collection of the type; a collection stays as it is.
    pub open spec fn spec_collection_type(self) -> Types {
        match self {
            Types::Primitive(p) => Types::PrimitiveCollection(p),
            Types::Struct(s) => Types::StructCollection(s),
            Types::Trait(t) => Types::TraitCollection(t),
            _ => self,
        }
    }

    /// The type of the elements of a collection; any other type stays as it is.
    pub open spec fn spec_element_type(self) -> Types {
        match self {
            Types::PrimitiveCollection(p) => Types::Primitive(p),
            Types::StructCollection(s) => Types::Struct(s),
            Types::TraitCollection(t) => Types::Trait(t),
            _ => self,
        }
    }

    /// The element type of the collection of a type that is no collection is the type; the
    /// collection of the element type of a collection is the collection; a collection of a
    /// collection is no deeper.
    pub proof fn lemma_collection_round_trip(self)
        ensures
            !self.is_collection() ==> self.spec_collection_type().spec_element_type() == self,
            self.is_collection() ==> self.spec_element_type().spec_collection_type() == self,
            self.spec_collection_type().is_collection(),
            self.spec_collection_type().spec_collection_type() == self.spec_collection_type(),
    {
    }


    /// The collection of elements of this type; collections stay as they are.
    pub fn collection_type(self) -> (r: Types)
        ensures
            r == self.spec_collection_type(),
    {
        match self {
            Types::Primitive(p) => Types::PrimitiveCollection(p),
            Types::Struct(s) => Types::StructCollection(s),
            Types::Trait(t) => Types::TraitCollection(t),
            _ => self,
        }
    }

    /// The type of the elements of a collection; other types stay as they are.
    pub fn element_type(self) -> (r: Types)
        ensures
            r == self.spec_element_type(),
    {
        match self {
            Types::PrimitiveCollection(p) => Types::Primitive(p),
            Types::StructCollection(s) => Types::Struct(s),
            Types::TraitCollection(t) => Types::Trait(t),
            _ => self,
        }
    }
}

} // verus!
