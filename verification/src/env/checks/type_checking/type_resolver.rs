//! The types that type names and literals stand for.
use crate::ast::{LiteralKind, Name};
use crate::env::checks::type_checking::types::{Primitive, Types};
use crate::env::environment::Environment;
use crate::env::error::EnvError;
use crate::env::name_resolution::resolved::Resolved;
use crate::names::{bytes_eq, join_path, TableKey};
use vstd::prelude::*;

verus! {

pub open spec fn word_int() -> Seq<u8> { seq![73u8, 110, 116] }
pub open spec fn word_float() -> Seq<u8> { seq![70u8, 108, 111, 97, 116] }
pub open spec fn word_string() -> Seq<u8> { seq![83u8, 116, 114, 105, 110, 103] }
pub open spec fn word_bool() -> Seq<u8> { seq![66u8, 111, 111, 108] }
pub open spec fn word_void() -> Seq<u8> { seq![86u8, 111, 105, 100] }
pub open spec fn word_std() -> Seq<u8> { seq![115u8, 116, 100] }

/// The primitive type that a name spells, if any. After `std.`, every primitive name but
/// `Void` stands for `Int`.
pub open spec fn spec_primitive_type(path: Seq<Seq<u8>>) -> Option<Types> {
    if path.len() == 1 {
        let w = path[0];
        if w == word_int() {
            Some(Types::Primitive(Primitive::Int))
        } else if w == word_float() {
            Some(Types::Primitive(Primitive::Float))
        } else if w == word_string() {
            Some(Types::Primitive(Primitive::String))
        } else if w == word_bool() {
            Some(Types::Primitive(Primitive::Bool))
        } else if w == word_void() {
            Some(Types::Primitive(Primitive::Void))
        } else {
            None
        }
    } else if path.len() == 2 && path[0] == word_std() {
        let w = path[1];
        if w == word_int() || w == word_float() || w == word_string() || w == word_bool() {
            Some(Types::Primitive(Primitive::Int))
        } else if w == word_void() {
            Some(Types::Primitive(Primitive::Void))
        } else {
            None
        }
    } else {
        None
    }
}

/// The primitive type named by a word, where the word is one.
fn primitive_word(w: &[u8]) -> (r: Option<Primitive>)
    ensures
        r == if w@ == word_int() {
            Some(Primitive::Int)
        } else if w@ == word_float() {
            Some(Primitive::Float)
        } else if w@ == word_string() {
            Some(Primitive::String)
        } else if w@ == word_bool() {
            Some(Primitive::Bool)
        } else if w@ == word_void() {
            Some(Primitive::Void)
        } else {
            None
        },
{
    let int_word: [u8; 3] = [73u8, 110, 116];
    let float_word: [u8; 5] = [70u8, 108, 111, 97, 116];
    let string_word: [u8; 6] = [83u8, 116, 114, 105, 110, 103];
    let bool_word: [u8; 4] = [66u8, 111, 111, 108];
    let void_word: [u8; 4] = [86u8, 111, 105, 100];
    assert(int_word@ =~= word_int());
    assert(float_word@ =~= word_float());
    assert(string_word@ =~= word_string());
    assert(bool_word@ =~= word_bool());
    assert(void_word@ =~= word_void());
    if bytes_eq(w, int_word.as_slice()) {
        Some(Primitive::Int)
    } else if bytes_eq(w, float_word.as_slice()) {
        Some(Primitive::Float)
    } else if bytes_eq(w, string_word.as_slice()) {
        Some(Primitive::String)
    } else if bytes_eq(w, bool_word.as_slice()) {
        Some(Primitive::Bool)
    } else if bytes_eq(w, void_word.as_slice()) {
        Some(Primitive::Void)
    } else {
        None
    }
}

/// The primitive type that a name spells, if any.
pub fn primitive_type(name: &Name) -> (r: Option<Types>)
    ensures
        r == spec_primitive_type(name.path()),
{
    if name.moniker.len() == 1 {
        match primitive_word(name.moniker[0].as_slice()) {
            Some(p) => Some(Types::Primitive(p)),
            None => None,
        }
    } else if name.moniker.len() == 2 {
        let std_word: [u8; 3] = [115u8, 116, 100];
        assert(std_word@ =~= word_std());
        if !bytes_eq(name.moniker[0].as_slice(), std_word.as_slice()) {
            return None;
        }
        match primitive_word(name.moniker[1].as_slice()) {
            Some(Primitive::Void) => Some(Types::Primitive(Primitive::Void)),
            Some(_) => Some(Types::Primitive(Primitive::Int)),
            None => None,
        }
    } else {
        None
    }
}

/// The type that a type name stands for, `None` where the name was linked to something that
/// is not a type: the struct or trait it was linked to, or else the primitive it spells; made
/// a collection where asked.
pub open spec fn spec_resolve_type_name(environment: &Environment, name: &Name, is_collection: bool) -> Option<Option<Types>> {
    match environment.resolved_names.get_spec(name.spec_key()) {
        Some(Resolved::Struct(s)) => Some(Some(if is_collection {
            Types::StructCollection(s)
        } else {
            Types::Struct(s)
        })),
        Some(Resolved::Trait(t)) => Some(Some(if is_collection {
            Types::TraitCollection(t)
        } else {
            Types::Trait(t)
        })),
        Some(_) => None,
        None => Some(match spec_primitive_type(name.path()) {
            Some(Types::Primitive(p)) => Some(if is_collection {
                Types::PrimitiveCollection(p)
            } else {
                Types::Primitive(p)
            }),
            other => other,
        }),
    }
}

/// The type that a type name stands for: the struct or trait it was linked to, or else the
/// primitive it spells; made a collection where asked. An error where the name was linked to
/// something that is not a type.
pub fn resolve_type_name(environment: &Environment, name: &Name, is_collection: bool) -> (res: Result<Option<Types>, EnvError>)
    ensures
        match spec_resolve_type_name(environment, name, is_collection) {
            Some(t) => res == Ok::<Option<Types>, EnvError>(t),
            None => res is Err,
        },
{
    let found = match environment.resolved_names.get(name) {
        Some(resolved) => match resolved {
            Resolved::Struct(s) => Some(Types::Struct(*s)),
            Resolved::Trait(t) => Some(Types::Trait(*t)),
            _ => {
                return Err(EnvError::NotAType(join_path(name.moniker.as_slice())));
            },
        },
        None => primitive_type(name),
    };
    match found {
        Some(t) => Ok(Some(if is_collection { t.collection_type() } else { t })),
        None => Ok(None),
    }
}

/// The type of a literal.
pub fn resolve_literal(literal_kind: &LiteralKind) -> (r: Types)
    ensures
        r == match *literal_kind {
            LiteralKind::Binary | LiteralKind::Hex | LiteralKind::Integer => Types::Primitive(Primitive::Int),
            LiteralKind::Boolean => Types::Primitive(Primitive::Bool),
            LiteralKind::Floating => Types::Primitive(Primitive::Float),
            LiteralKind::String => Types::Primitive(Primitive::String),
        },
{
    match literal_kind {
        LiteralKind::Binary | LiteralKind::Hex | LiteralKind::Integer => Types::Primitive(Primitive::Int),
        LiteralKind::Boolean => Types::Primitive(Primitive::Bool),
        LiteralKind::Floating => Types::Primitive(Primitive::Float),
        LiteralKind::String => Types::Primitive(Primitive::String),
    }
}

} // verus!
