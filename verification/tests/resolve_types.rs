use doc_script::ast::{AbstractSyntaxTree, DeclId, Expression, LiteralKind};
use doc_script::env::checks::type_checking::types::{Primitive, Types};
use doc_script::env::environment::Environment;
use doc_script::env::error::EnvError;
use doc_script::env::name_resolution::type_checking::type_checker::TypeChecker;
use doc_script::syntax::syntax_tree;

fn literal_type(kind: LiteralKind) -> Types {
    let expression = Expression::Literal { kind, lexeme: Vec::new() };
    let env = Environment::new();
    let syntax_trees: Vec<AbstractSyntaxTree> = Vec::new();
    TypeChecker::with_environment(&env, &syntax_trees).test_resolve_expression(&expression).unwrap()
}

fn test_literals(kind: LiteralKind, expected: Types) {
    assert_eq!(literal_type(kind), expected)
}

const INT: Types = Types::Primitive(Primitive::Int);
const FLOAT: Types = Types::Primitive(Primitive::Float);
const STRING: Types = Types::Primitive(Primitive::String);
const BOOL: Types = Types::Primitive(Primitive::Bool);
const VOID: Types = Types::Primitive(Primitive::Void);

fn built(programs: &[&str]) -> (Environment, Vec<AbstractSyntaxTree>) {
    let mut syntax_trees: Vec<AbstractSyntaxTree> = programs.iter().map(|p| syntax_tree(p).unwrap()).collect();
    let module_paths: Vec<Vec<Vec<u8>>> = programs.iter().map(|_| vec![]).collect();
    let env = Environment::builder()
        .add_modules(&module_paths)
        .generate_scopes(&mut syntax_trees)
        .resolve_names(&syntax_trees)
        .build()
        .unwrap();
    (env, syntax_trees)
}

fn validated(programs: &[&str]) -> Result<Environment, EnvError> {
    let mut syntax_trees: Vec<AbstractSyntaxTree> = programs.iter().map(|p| syntax_tree(p).unwrap()).collect();
    let module_paths: Vec<Vec<Vec<u8>>> = programs.iter().map(|_| vec![]).collect();
    Environment::builder()
        .add_modules(&module_paths)
        .generate_scopes(&mut syntax_trees)
        .resolve_names(&syntax_trees)
        .without_entry_check()
        .validate(&syntax_trees)
        .build()
}

fn first_constant(tree: &AbstractSyntaxTree) -> usize {
    tree.compilation_unit.declarations.iter().find_map(|d| d.as_constant()).unwrap()
}

fn last_constant(tree: &AbstractSyntaxTree) -> usize {
    tree.compilation_unit.declarations.iter().filter_map(|d| d.as_constant()).last().unwrap()
}

fn type_of_constant(program: &str, last: bool) -> Types {
    let (env, syntax_trees) = built(&[program]);
    let index = if last { last_constant(&syntax_trees[0]) } else { first_constant(&syntax_trees[0]) };
    let value = &syntax_trees[0].constants[index].value;
    TypeChecker::with_environment(&env, &syntax_trees).test_resolve_expression(value).unwrap()
}

fn type_of_first_attribute(program: &str) -> Result<Types, EnvError> {
    let (env, syntax_trees) = built(&[program]);
    let structure = syntax_trees[0].compilation_unit.declarations.iter().find_map(|d| d.as_struct()).unwrap();
    let attribute = syntax_trees[0].structs[structure].body.as_ref().unwrap().attributes[0];
    let value = &syntax_trees[0].constants[attribute].value;
    TypeChecker::with_environment(&env, &syntax_trees).test_resolve_expression(value)
}

fn test_type_access_internal(program: &str) {
    assert_eq!(type_of_first_attribute(program).unwrap(), STRING)
}

fn test_type_access_internal_refused(program: &str) {
    assert!(validated(&[program]).is_err())
}

const STRUCT_PROGRAM: &str = "\n        struct Empty\n        const a = Empty()\n        ";
const BLOCK_PROGRAM: &str = "\n        const a = {\n            const b = 3\n            b\n        }\n        ";
const FIELD_ACCESS_FROM_BLOCK: &str = "\n        struct A(field: String)\n        const a = {\n            A(\"test\")\n        }.field\n        ";
const FIELD_ACCESS_INTERNAL: &str = "\n        struct A(field: String) {\n            const a = self.field\n        }\n        ";
const ATTRIBUTE_ACCESS_INTERNAL: &str = "\n        struct A(field: String) {\n            const b = self.field\n            const a = b\n        }\n        ";
const FIELD_ACCESS_WITHOUT_SELF: &str = "\n        struct A(field: String) {\n            const a = field\n        }\n        ";
const ATTRIBUTE_ACCESS_WITH_SELF: &str = "\n        struct A(field: String) {\n            const b = self.field\n            const a = self.b\n        }\n        ";
const ATTRIBUTE_FROM_TYPE: &str = "\n        struct A(field: String) {\n            const b = self.field\n            const a = A.b\n        }\n        ";
const FIELD_FROM_TYPE: &str = "\n        struct A(field: String) {\n            const a = A.field\n        }\n        ";

#[test]
fn test_resolve_types_test_int() {
    test_literals(LiteralKind::Integer, INT)
}

#[test]
fn test_resolve_types_test_binary() {
    test_literals(LiteralKind::Binary, INT)
}

#[test]
fn test_resolve_types_test_float() {
    test_literals(LiteralKind::Floating, FLOAT)
}

#[test]
fn test_resolve_types_test_string() {
    test_literals(LiteralKind::String, STRING)
}

#[test]
fn test_resolve_types_test_bool() {
    test_literals(LiteralKind::Boolean, BOOL)
}

#[test]
fn resolve_types_tests_test_int() {
    test_literals(LiteralKind::Integer, INT)
}

#[test]
fn resolve_types_tests_test_binary() {
    test_literals(LiteralKind::Binary, INT)
}

#[test]
fn resolve_types_tests_test_float() {
    test_literals(LiteralKind::Floating, FLOAT)
}

#[test]
fn resolve_types_tests_test_string() {
    test_literals(LiteralKind::String, STRING)
}

#[test]
fn resolve_types_tests_test_bool() {
    test_literals(LiteralKind::Boolean, BOOL)
}

#[test]
fn hex_literal_is_int() {
    test_literals(LiteralKind::Hex, INT)
}

#[test]
fn test_resolve_types_test_resolve_struct() {
    assert_eq!(type_of_constant(STRUCT_PROGRAM, true), Types::Struct(DeclId { tree: 0, index: 0 }))
}

#[test]
fn resolve_types_tests_test_resolve_struct() {
    assert_eq!(type_of_constant(STRUCT_PROGRAM, true), Types::Struct(DeclId { tree: 0, index: 0 }))
}

#[test]
fn test_resolve_types_test_resolve_from_block() {
    assert_eq!(type_of_constant(BLOCK_PROGRAM, false), INT)
}

#[test]
fn resolve_types_tests_test_resolve_from_block() {
    assert_eq!(type_of_constant(BLOCK_PROGRAM, false), INT)
}

#[test]
fn test_resolve_types_test_resolve_field_access_from_block() {
    assert_eq!(type_of_constant(FIELD_ACCESS_FROM_BLOCK, true), STRING)
}

#[test]
fn resolve_types_tests_test_resolve_field_access_from_block() {
    assert_eq!(type_of_constant(FIELD_ACCESS_FROM_BLOCK, true), STRING)
}

#[test]
fn test_resolve_types_test_type_field_access_internal() {
    test_type_access_internal(FIELD_ACCESS_INTERNAL);
}

#[test]
fn resolve_types_tests_test_type_field_access_internal() {
    test_type_access_internal(FIELD_ACCESS_INTERNAL);
}

#[test]
fn test_resolve_types_test_type_attribute_access_internal() {
    test_type_access_internal(ATTRIBUTE_ACCESS_INTERNAL);
}

#[test]
fn resolve_types_tests_test_type_attribute_access_internal() {
    test_type_access_internal(ATTRIBUTE_ACCESS_INTERNAL);
}

#[test]
fn test_resolve_types_test_type_field_access_internal_without_self() {
    test_type_access_internal_refused(FIELD_ACCESS_WITHOUT_SELF);
}

#[test]
fn test_resolve_types_test_type_attribute_access_internal_with_self() {
    test_type_access_internal(ATTRIBUTE_ACCESS_WITH_SELF);
}

#[test]
fn resolve_types_tests_test_type_attribute_access_internal_with_self() {
    test_type_access_internal(ATTRIBUTE_ACCESS_WITH_SELF);
}

#[test]
fn test_resolve_types_test_type_attribute_access_internal_directly_from_type() {
    test_type_access_internal_refused(ATTRIBUTE_FROM_TYPE);
}

#[test]
fn test_resolve_types_test_type_field_access_internal_directly_from_type() {
    test_type_access_internal_refused(FIELD_FROM_TYPE);
}

#[test]
fn test_resolve_types_test_type_constant_points_to_struct() {
    assert!(validated(&["\n        struct A(field: String) \n        const a = A\n        "]).is_err());
}

#[test]
fn resolve_types_tests_test_type_field_access_internal_without_self() {
    test_type_access_internal_refused(FIELD_ACCESS_WITHOUT_SELF);
}

#[test]
fn resolve_types_tests_test_type_attribute_access_internal_directly_from_type() {
    test_type_access_internal_refused(ATTRIBUTE_FROM_TYPE);
}

#[test]
fn resolve_types_tests_test_type_field_access_internal_directly_from_type() {
    test_type_access_internal_refused(FIELD_FROM_TYPE);
}

#[test]
fn resolve_types_tests_test_type_constant_points_to_struct() {
    assert!(validated(&["\n        struct A(field: String) \n        const a = A\n        "]).is_err());
}

#[test]
fn test_self_type() {
    let program = "\n    struct TestType {\n        const a = self\n    }\n    ";
    assert_eq!(type_of_first_attribute(program).unwrap(), Types::Struct(DeclId { tree: 0, index: 0 }))
}

#[test]
fn test_access_field_with_trait_type() {
    let program = "\n    trait Trait(value: Int)\n    struct Impl(value: Int)\n    struct TestType(field: Trait)\n    const test = TestType(Impl(42)).field\n    ";
    assert_eq!(type_of_constant(program, true), Types::Trait(DeclId { tree: 0, index: 0 }))
}

#[test]
fn access_undeclared_field_from_trait() {
    let program = "\n    trait Trait(value: Int)\n    struct Impl(value: Int, hidden: String)\n    struct TestType(field: Trait)\n    const test = TestType(Impl(42)).hidden\n    ";
    assert!(validated(&[program]).is_err());
}

#[test]
fn test_void() {
    let void_expr = Expression::Void;
    let env = Environment::new();
    let syntax_trees: Vec<AbstractSyntaxTree> = Vec::new();
    let actual = TypeChecker::with_environment(&env, &syntax_trees).test_resolve_expression(&void_expr).unwrap();
    assert_eq!(actual, VOID)
}

#[test]
fn test_void_type_full() {
    assert_eq!(type_of_constant("\n    const marker = ()\n    ", false), VOID);
}

#[test]
fn test_void_type_impl_trait() {
    validated(&[
        "trait Test(marker: Void)\n",
        "struct Collection(test: Test)\n",
        "struct Impl(data: String) { \n            const marker = () \n            }\n            ",
        "\n            const collection = Collection(Impl(\"test\"))\n            ",
    ])
    .unwrap();
}

#[test]
fn type_mismatch_in_field_default() {
    let result = validated(&["struct A(field: Int = \"text\")\n"]);
    assert!(matches!(result, Err(EnvError::TypeMismatch { .. })));
}

#[test]
fn simply_typed_constants_pass_the_type_check() {
    let (env, syntax_trees) = built(&["const a = 1\nconst b = [a, a]\nconst c = {\n b\n}\n"]);
    assert_eq!(TypeChecker::with_environment(&env, &syntax_trees).check(), Ok(()));
}

#[test]
fn collection_of_a_constant_has_the_collection_of_its_type() {
    assert_eq!(type_of_constant("const a = \"text\"\nconst b = [a, a]\n", true), Types::Primitive(Primitive::String).collection_type());
}
