use doc_script::ast::{AbstractSyntaxTree, DeclId, Expression, Name, ScopeId, GLOBAL_SCOPE};
use doc_script::env::checks::type_checking::types::Types;
use doc_script::env::declaration_resolution;
use doc_script::env::environment::Environment;
use doc_script::env::error::EnvError;
use doc_script::env::name_resolution::resolution::NameResolver;
use doc_script::env::name_resolution::resolve_helper::ResolveHelper;
use doc_script::env::name_resolution::resolved::Resolved;
use doc_script::env::name_resolution::type_checking::type_checker::TypeChecker;
use doc_script::env::name_resolution::type_linker::TypeLinker;
use doc_script::env::scope::Scoped;
use doc_script::syntax::syntax_tree;

fn ident(s: &str) -> Vec<u8> {
    s.as_bytes().to_vec()
}

fn path_of(components: &[&str]) -> Vec<Vec<u8>> {
    components.iter().map(|c| ident(c)).collect()
}

fn trees(programs: &[&str]) -> Vec<AbstractSyntaxTree> {
    programs.iter().map(|p| syntax_tree(p).unwrap()).collect()
}

fn first_constant(tree: &AbstractSyntaxTree) -> usize {
    tree.compilation_unit.declarations.iter().find_map(|d| d.as_constant()).unwrap()
}

fn last_constant(tree: &AbstractSyntaxTree) -> usize {
    tree.compilation_unit.declarations.iter().filter_map(|d| d.as_constant()).last().unwrap()
}

fn last_struct(tree: &AbstractSyntaxTree) -> usize {
    tree.compilation_unit.declarations.iter().filter_map(|d| d.as_struct()).last().unwrap()
}

fn declared_env(syntax_trees: &mut Vec<AbstractSyntaxTree>, module_paths: &[Vec<Vec<u8>>]) -> Environment {
    let mut env = Environment::builder().add_modules(module_paths).generate_scopes(syntax_trees).build().unwrap();
    declaration_resolution::resolve(&mut env, syntax_trees, module_paths).unwrap();
    env
}

fn test_resolve_from_wildcard_import(programs: [&str; 2]) {
    let module_paths = vec![path_of(&["test", "source"]), path_of(&["test", "target"])];
    let mut syntax_trees = trees(&programs);
    let env = declared_env(&mut syntax_trees, &module_paths);
    let source_scope_id = env.find_module(&module_paths[1]).unwrap();
    let resolved = ResolveHelper::resolve(&env, source_scope_id, b"name").unwrap().expect("Failed to resolve");
    let actual = resolved.as_constant().expect("Not constant");
    let expected = DeclId { tree: 0, index: first_constant(&syntax_trees[0]) };
    assert_eq!(actual, expected)
}

#[test]
fn test_resolve_constant_from_block() {
    test_resolve_from_wildcard_import([
        "const name = \"Test Name\"\n",
        "use test.source.*\n           const test = { name }\n        ",
    ])
}

#[test]
fn test_resolve_constant_from_struct_init() {
    test_resolve_from_wildcard_import([
        "const name = \"Test Name\"\n",
        "use test.source.*\n           const test = View { Text(name) }\n        ",
    ])
}

#[test]
fn test_resolve_constant_from_struct_body() {
    test_resolve_from_wildcard_import([
        "const name = \"Test Name\"\n",
        "use test.source.*\n           struct View {\n                const title = name\n           }\n        ",
    ])
}

#[test]
fn test_unresolvable_name() {
    let module_paths = vec![path_of(&["test", "source"]), path_of(&["test", "target"])];
    let mut syntax_trees = trees(&[
        "const name = \"Test Name\"\n",
        "\n        use test.source.*\n        const name = title\n        ",
    ]);
    let env = declared_env(&mut syntax_trees, &module_paths);
    let source_scope_id = env.find_module(&path_of(&["test", "target"])).unwrap();
    let unresolved = ResolveHelper::resolve(&env, source_scope_id, b"title").unwrap();
    assert!(unresolved.is_none())
}

#[test]
fn test_shaded_name() {
    let module_paths = vec![path_of(&["test", "source"]), path_of(&["test", "target"])];
    let mut syntax_trees = trees(&[
        "const name = \"Test Name\"\n",
        "\n        use test.source.*\n        const name = \"Debug Name\"\n        ",
    ]);
    let env = declared_env(&mut syntax_trees, &module_paths);
    let source_scope_id = env.find_module(&path_of(&["test", "target"])).unwrap();
    let resolved = ResolveHelper::resolve(&env, source_scope_id, b"name").unwrap().expect("Failed to resolve");
    let actual = resolved.as_constant().expect("not constant");
    let expected = DeclId { tree: 1, index: last_constant(&syntax_trees[1]) };
    assert_eq!(actual, expected)
}

#[test]
fn test_ambiguous_wildcard_imports() {
    let module_paths = [path_of(&["first"]), path_of(&["second"]), path_of(&["target"])];
    let mut syntax_trees = trees(&[
        "const name = \"Test Name\"\n",
        "const name = 3\n",
        "\n        use first.*\n        use second.*\n        const target = name\n        ",
    ]);
    let result = Environment::builder()
        .add_modules(&module_paths)
        .generate_scopes(&mut syntax_trees)
        .resolve_names(&syntax_trees)
        .build();
    assert!(matches!(result, Err(EnvError::AmbiguousName(_))));
}

#[test]
fn test_cycling_wildcard_imports() {
    let module_paths = [path_of(&["first"]), path_of(&["second"])];
    let mut syntax_trees = trees(&["const name = second_name\n", "const not_second_name = 42\n"]);
    let result = Environment::builder()
        .add_modules(&module_paths)
        .generate_scopes(&mut syntax_trees)
        .resolve_names(&syntax_trees)
        .build();
    assert!(result.is_err());
}

fn resolved_name(syntax_trees: &mut Vec<AbstractSyntaxTree>, module_paths: &[Vec<Vec<u8>>], moniker: &[&str]) -> Resolved {
    let env = Environment::builder()
        .add_modules(module_paths)
        .generate_scopes(syntax_trees)
        .resolve_names(syntax_trees)
        .build()
        .unwrap();
    let mut name = Name::qualified(path_of(moniker));
    name.set_scope(GLOBAL_SCOPE);
    env.resolved_names.get(&name).unwrap().duplicate()
}

#[test]
fn test_constant_field() {
    let mut syntax_trees = trees(&[
        "\n        use person.Person\n        use system.Id\n        \n        const person = Person(Id(3))\n        const val = person.id.digit\n        ",
        "struct Person(id: system.Id)\n",
        "struct Id(digit: Int)\n",
    ]);
    let module_paths = vec![vec![], path_of(&["person"]), path_of(&["system"])];
    match resolved_name(&mut syntax_trees, &module_paths, &["person", "id", "digit"]) {
        Resolved::InstanceAccess(_, fields) => assert_eq!(fields.last().unwrap(), &ident("digit")),
        other => panic!("not an instance access: {:?}", other),
    }
}

#[test]
fn test_field_over_package() {
    let mut syntax_trees = trees(&[
        "const value = test.test.test\n",
        "\n        struct Test(test: Int)\n        const test = Test(3)\n        ",
        "const test = 5\n",
    ]);
    let module_paths = vec![vec![], path_of(&["test"]), path_of(&["test", "test"])];
    match resolved_name(&mut syntax_trees, &module_paths, &["test", "test", "test"]) {
        Resolved::InstanceAccess(_, fields) => assert_eq!(fields.last().unwrap(), &ident("test")),
        other => panic!("not an instance access: {:?}", other),
    }
}

#[test]
fn resolve_module_constant() {
    let mut syntax_trees = trees(&["const a = test.target\n", "const target = 3\n"]);
    let module_paths = vec![vec![], path_of(&["test"])];
    let resolved = resolved_name(&mut syntax_trees, &module_paths, &["test", "target"]);
    let expected = DeclId { tree: 1, index: last_constant(&syntax_trees[1]) };
    assert_eq!(resolved.as_constant(), Some(expected))
}

#[test]
fn resolve_module_struct() {
    let mut syntax_trees = trees(&["const a = empty.Empty()\n", "struct Empty\n"]);
    let module_paths = vec![vec![], path_of(&["empty"])];
    let resolved = resolved_name(&mut syntax_trees, &module_paths, &["empty", "Empty"]);
    let expected = DeclId { tree: 1, index: last_struct(&syntax_trees[1]) };
    assert_eq!(resolved.as_struct(), Some(expected))
}

fn link(program: &str, source_scope: ScopeId) -> Result<Option<DeclId>, EnvError> {
    let module_paths: Vec<Vec<Vec<u8>>> = vec![vec![]];
    let mut syntax_trees = trees(&[program]);
    let mut env = declared_env(&mut syntax_trees, &module_paths);
    let mut name = Name::simple(ident("Empty"));
    name.set_scope(source_scope);
    TypeLinker::link_types(&mut env, &vec![name.duplicate()])?;
    let actual = env.resolved_names.get(&name).unwrap().as_struct();
    Ok(actual)
}

fn test_type_linking(program: &str, source_scope: ScopeId) {
    let expected = DeclId { tree: 0, index: last_struct(&syntax_tree(program).unwrap()) };
    assert_eq!(link(program, source_scope).unwrap(), Some(expected))
}

#[test]
fn test_resolve_name_at_current_scope() {
    test_type_linking("struct Empty\n", GLOBAL_SCOPE)
}

#[test]
fn test_resolve_from_struct_body() {
    test_type_linking("struct Empty {\n const shared = Empty()\n }\n", 1)
}

#[test]
fn test_type_linker_test_resolve_from_block() {
    test_type_linking("struct Empty {\n const shared = { Empty() }\n }\n", 2)
}

#[test]
fn test_resolve_from_struct_init() {
    test_type_linking("struct Empty {\n const shared = View { Empty() }\n }\n", 2)
}

#[test]
fn test_resolve_from_field() {
    test_type_linking("struct Empty(empty: Empty)\n", GLOBAL_SCOPE);
}

#[test]
fn test_unresolvable_type() {
    assert!(link("struct A(empty: Empty)\n", 1).is_err());
}

#[test]
fn test_call_on_constant() {
    assert!(link("\n    const Empty = 3\n    \n    const empty = Empty()\n    ", GLOBAL_SCOPE).is_err());
}

fn cycle_check(program: &str, module_paths: Vec<Vec<Vec<u8>>>) -> Result<Environment, EnvError> {
    let mut syntax_trees = trees(&[program]);
    Environment::builder()
        .add_modules(&module_paths)
        .generate_scopes(&mut syntax_trees)
        .resolve_names(&syntax_trees)
        .without_entry_check()
        .validate(&syntax_trees)
        .build()
}

#[test]
fn test_cycle_reference() {
    assert!(cycle_check("\n        const a = b\n        const b = a \n    ", vec![vec![]]).is_err());
}

#[test]
fn test_cycle_reference_to_self() {
    assert!(cycle_check("\n        const a = a\n    ", vec![vec![]]).is_err());
}

#[test]
fn test_cycle_reference_to_self_with_full_name() {
    assert!(cycle_check("\n        const a = test.a\n    ", vec![path_of(&["test"])]).is_err());
}

#[test]
fn test_cycle_reference_with_full_name() {
    assert!(cycle_check("\n        const a = test.b\n        const b = a\n    ", vec![path_of(&["test"])]).is_err());
}

#[test]
fn test_indirect_cycle_reference() {
    assert!(cycle_check("\n        const a = c\n        const c = b\n        const b = a\n    ", vec![vec![]]).is_err());
}

#[test]
fn test_field_reference_to_field() {
    assert!(cycle_check("\n    struct A(field1: String, field2: String = self.field1)\n    ", vec![vec![]]).is_err());
}

#[test]
fn test_field_reference_to_field_without_self() {
    assert!(cycle_check("\n    struct A(field1: String, field2: String = field1)\n    ", vec![vec![]]).is_err());
}

#[test]
fn test_field_use_constant_as_valid_default_value() {
    cycle_check("\n        const a = 5\n        struct A(field: Int = a)\n    ", vec![vec![]]).unwrap();
}

#[test]
fn test_constant_field_ref_cycle() {
    assert!(cycle_check(
        "\n        const a = Test()\n        const b = a.val\n        struct Test(val: Int = b)\n    ",
        vec![vec![]]
    )
    .is_err());
}

#[test]
fn test_constant_field_ref_without_using_default_value() {
    assert!(cycle_check(
        "\n        const a = Test(3)\n        const b = a.val\n        struct Test(val: Int = b)\n    ",
        vec![vec![]]
    )
    .is_err());
}

#[test]
fn test_constant_field_ref_valid() {
    cycle_check(
        "\n        const a = Test()\n        const b = 3\n        struct Test(val: Int = b)\n    ",
        vec![vec![]],
    )
    .unwrap();
}

#[test]
fn test_cycle_ref_in_struct_init_param() {
    assert!(cycle_check(
        "\n    struct Test(field: Int)\n    \n    const a = b\n    const b = Test(a)\n    ",
        vec![vec![]]
    )
    .is_err());
}

#[test]
fn test_cycle_ref_in_block() {
    assert!(cycle_check("\n    const a = {\n        const b = a\n        b\n    }\n    ", vec![vec![]]).is_err());
}

#[test]
fn test_cycle_ref_in_struct_init_body() {
    assert!(cycle_check("\n    struct Test\n    \n    const a = b\n    const b = Test {\n        a\n    }\n    ", vec![vec![]])
        .is_err());
}

fn chaining_method_type(program: &str) -> Result<Types, EnvError> {
    let mut syntax_trees = trees(&[program]);
    let module_paths: Vec<Vec<Vec<u8>>> = vec![vec![]];
    let mut env = Environment::builder().add_modules(&module_paths).generate_scopes(&mut syntax_trees).build().unwrap();
    let names = declaration_resolution::resolve(&mut env, &syntax_trees, &module_paths).unwrap();
    TypeLinker::link_types(&mut env, &names.type_names).unwrap();
    NameResolver::resolve_names(&mut env, &names.expression_names).unwrap();
    let target: &Expression = &syntax_trees[0].constants[last_constant(&syntax_trees[0])].value;
    let mut checker = TypeChecker::with_environment(&env, &syntax_trees);
    checker.test_resolve_expression(target)
}

fn test_chaining_method_invoke(program: &str) {
    let actual = chaining_method_type(program).unwrap();
    let expected = Types::Struct(DeclId { tree: 0, index: 0 });
    assert_eq!(actual, expected)
}

#[test]
fn test_chaining_method_test_chaining_method_invoke_normal() {
    test_chaining_method_invoke(
        "\n        struct People(name: String, age: Int = 0) \n        \n        const people = People(\"test\").age(25)\n        ",
    )
}

#[test]
fn test_chaining_method_test_chaining_method_field_not_exist() {
    assert!(chaining_method_type(
        "\n        struct People(name: String, age: Int = 0) \n        \n        const people = People(\"test\").birth_day(25)\n        ",
    )
    .is_err())
}

#[test]
fn test_chaining_method_test_chaining_method_missing_parameter_with_default_value() {
    test_chaining_method_invoke(
        "\n        struct People(name: String, registered: Bool = false) \n        \n        const people = People(\"test\").registered()\n        ",
    )
}

#[test]
fn test_chaining_method_test_chaining_method_missing_parameter_without_default_value() {
    assert!(chaining_method_type(
        "\n        struct People(name: String, age: Int = 0) \n        \n        const people = People(\"test\").name()\n        ",
    )
    .is_err())
}

#[test]
fn test_chaining_method_test_chaining_method_override_constructor() {
    test_chaining_method_invoke(
        "\n        struct People(name: String, age: Int = 0) \n        \n        const people = People(\"test\").name(\"not test\")\n        ",
    )
}

#[test]
fn test_chaining_method_test_chaining_method_from_constant() {
    test_chaining_method_invoke(
        "\n        struct People(name: String, age: Int = 0) \n        \n        const people = People(\"test\");\n        // needs bracket, because otherwise it will be recognized as type\n        const debug_people = (people).name(\"debug\")\n        ",
    )
}

#[test]
fn test_type_check_chaining_method_test_chaining_method_invoke_normal() {
    test_chaining_method_invoke(
        "\n        struct People(name: String, age: Int = 0) \n        \n        const people = People(\"test\").age(25)\n        ",
    )
}

#[test]
fn test_type_check_chaining_method_test_chaining_method_field_not_exist() {
    assert!(chaining_method_type(
        "\n        struct People(name: String, age: Int = 0) \n        \n        const people = People(\"test\").birth_day(25)\n        ",
    )
    .is_err())
}

#[test]
fn test_type_check_chaining_method_test_chaining_method_missing_parameter_with_default_value() {
    test_chaining_method_invoke(
        "\n        struct People(name: String, registered: Bool = false) \n        \n        const people = People(\"test\").registered()\n        ",
    )
}

#[test]
fn test_type_check_chaining_method_test_chaining_method_missing_parameter_without_default_value() {
    assert!(chaining_method_type(
        "\n        struct People(name: String, age: Int = 0) \n        \n        const people = People(\"test\").name()\n        ",
    )
    .is_err())
}

#[test]
fn test_type_check_chaining_method_test_chaining_method_override_constructor() {
    test_chaining_method_invoke(
        "\n        struct People(name: String, age: Int = 0) \n        \n        const people = People(\"test\").name(\"not test\")\n        ",
    )
}

#[test]
fn test_type_check_chaining_method_test_chaining_method_from_constant() {
    test_chaining_method_invoke(
        "\n        struct People(name: String, age: Int = 0) \n        \n        const people = People(\"test\");\n        // needs bracket, because otherwise it will be recognized as type\n        const debug_people = (people).name(\"debug\")\n        ",
    )
}
