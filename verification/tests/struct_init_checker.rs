use doc_script::ast::{Expression, Field, Name, Parameter, Type};
use doc_script::env::checks::type_checking::types::{Primitive, Types};
use doc_script::env::name_resolution::type_checking::struct_init_checker::{Error, StructInitChecker};

const INT: Types = Types::Primitive(Primitive::Int);
const STRING: Types = Types::Primitive(Primitive::String);

fn ident(s: &str) -> Vec<u8> {
    s.as_bytes().to_vec()
}

fn field(name: &str, default_value: bool) -> Field {
    let default_value = match default_value {
        false => None,
        true => Some(Expression::ConstUse(Name::simple(ident("test")))),
    };
    Field {
        name: ident(name),
        field_type: Type { name: Name::simple(ident("not important")), is_collection: false },
        default_value,
    }
}

fn parameter(label: &str) -> Parameter {
    Parameter::Labelled { label: ident(label), content: Expression::ConstUse(Name::simple(ident("test"))) }
}

fn mismatch(field: &str, expected: &str, found: &str) -> Error {
    Error::TypeMismatch { field: ident(field), expected: ident(expected), found: ident(found) }
}

fn check_plain_parameters(fields: Vec<Field>, field_types: Vec<Types>, parameter_types: Vec<Types>) -> Result<(), Error> {
    let type_checker = StructInitChecker::with_fields(&fields, field_types);
    type_checker.check_plain_parameters(parameter_types)
}

fn check_labelled_parameters(
    fields: Vec<Field>,
    field_types: Vec<Types>,
    parameters: Vec<Parameter>,
    parameter_types: Vec<Types>,
) -> Result<(), Error> {
    StructInitChecker::with_fields(&fields, field_types).check_labelled_parameters(&parameters, &parameter_types)
}

#[test]
fn test_type_plain_parameters() {
    let check_outcome = check_plain_parameters(
        vec![field("field1", false), field("field2", false)],
        vec![INT, STRING],
        vec![INT, STRING],
    );
    assert!(check_outcome.is_ok())
}

#[test]
fn test_type_plain_mismatches() {
    let check_outcome = check_plain_parameters(
        vec![field("field1", false), field("field2", false)],
        vec![INT, STRING],
        vec![STRING, INT],
    );
    assert_eq!(check_outcome, Err(mismatch("field1", "Int", "String")))
}

#[test]
fn test_type_plain_with_default_parameter() {
    let check_outcome =
        check_plain_parameters(vec![field("field1", false), field("field2", true)], vec![INT, STRING], vec![INT]);
    assert!(check_outcome.is_ok())
}

#[test]
fn test_type_plain_modifying_default_parameter() {
    let check_outcome =
        check_plain_parameters(vec![field("field1", true), field("field2", true)], vec![INT, STRING], vec![INT]);
    assert!(check_outcome.is_ok())
}

#[test]
fn test_type_plain_modifying_second_default_parameter() {
    let check_outcome =
        check_plain_parameters(vec![field("field1", true), field("field2", true)], vec![INT, STRING], vec![STRING]);
    assert!(check_outcome.is_ok())
}

#[test]
fn test_type_plain_default_field_matches() {
    let check_outcome = check_plain_parameters(
        vec![field("field1", false), field("field2", true), field("field3", true)],
        vec![INT, STRING, INT],
        vec![INT, INT],
    );
    assert!(check_outcome.is_ok())
}

#[test]
fn test_type_plain_default_field_not_supplied() {
    let check_outcome =
        check_plain_parameters(vec![field("field1", false), field("field2", true)], vec![INT, STRING], vec![STRING]);
    assert_eq!(check_outcome, Err(mismatch("field1", "Int", "String")))
}

#[test]
fn test_labelled_parameters_in_order() {
    let check_res = check_labelled_parameters(
        vec![field("field1", false), field("field2", false)],
        vec![INT, STRING],
        vec![parameter("field1"), parameter("field2")],
        vec![INT, STRING],
    );
    assert!(check_res.is_ok())
}

#[test]
fn test_labelled_parameters_in_reverse_order() {
    let check_res = check_labelled_parameters(
        vec![field("field1", false), field("field2", false)],
        vec![INT, STRING],
        vec![parameter("field2"), parameter("field1")],
        vec![STRING, INT],
    );
    assert!(check_res.is_ok())
}

#[test]
fn test_labelled_parameters_with_defaults() {
    let check_res = check_labelled_parameters(
        vec![field("field1", false), field("field2", true), field("field3", true)],
        vec![INT, STRING, INT],
        vec![parameter("field2"), parameter("field1")],
        vec![STRING, INT],
    );
    assert!(check_res.is_ok())
}

#[test]
fn test_labelled_parameters_missing_mandatory() {
    let check_res = check_labelled_parameters(
        vec![field("field1", false), field("field2", true), field("field3", true)],
        vec![INT, STRING, INT],
        vec![parameter("field2"), parameter("field3")],
        vec![STRING, INT],
    );
    assert_eq!(check_res, Err(Error::FieldNotSupplied(ident("field1"))))
}

#[test]
fn test_labelled_parameters_type_mismatches() {
    let check_res = check_labelled_parameters(
        vec![field("field1", false), field("field2", false)],
        vec![INT, STRING],
        vec![parameter("field1"), parameter("field2")],
        vec![STRING, STRING],
    );
    assert_eq!(check_res, Err(mismatch("field1", "Int", "String")))
}

#[test]
fn test_too_many_parameters() {
    let fields = vec![field("field1", false)];
    let parameters = vec![parameter("field1"), parameter("field2")];
    let check_res = StructInitChecker::with_fields(&fields, vec![INT]).check_parameters(&parameters, vec![INT, STRING]);
    assert_eq!(check_res, Err(Error::TooManyField { expected: 1, found: 2 }))
}

#[test]
fn test_empty_input() {
    let fields = vec![field("field1", false), field("field2", false)];
    let parameters = vec![];
    let check_res = StructInitChecker::with_fields(&fields, vec![INT, STRING]).check_parameters(&parameters, vec![]);
    assert_eq!(check_res, Err(Error::FieldNotSupplied(ident("field1"))))
}

#[test]
fn empty_input_with_default_first_field() {
    let fields = vec![field("field1", true), field("field2", false)];
    let check_res = StructInitChecker::with_fields(&fields, vec![INT, STRING]).check_parameters(&[], vec![]);
    assert!(check_res.is_ok())
}
