use doc_script::ast::{AbstractSyntaxTree, DeclId, GLOBAL_SCOPE};
use doc_script::env::construction::module_operations::ModuleAdder;
use doc_script::env::declaration_resolution;
use doc_script::env::declaration_resolution::declaration_operations::DeclarationAdder;
use doc_script::env::environment::Environment;
use doc_script::env::scope::DeclaredElement;
use doc_script::syntax::syntax_tree;

fn ident(s: &str) -> Vec<u8> {
    s.as_bytes().to_vec()
}

fn path_of(components: &[&str]) -> Vec<Vec<u8>> {
    components.iter().map(|c| ident(c)).collect()
}

fn prepare_module_path() -> Vec<Vec<Vec<u8>>> {
    vec![vec![]]
}

fn kick_off(env: &mut Environment, syntax_trees: &Vec<AbstractSyntaxTree>) -> Vec<Vec<Vec<u8>>> {
    let module_paths = prepare_module_path();
    let mut unresolved_names = DeclarationAdder::add_from(env, syntax_trees, &module_paths)
        .unwrap()
        .expression_names
        .into_iter()
        .map(|name| name.moniker)
        .collect::<Vec<_>>();
    unresolved_names.sort();
    unresolved_names
}

#[test]
fn test_add_constant() {
    let mut env = Environment::new();
    let syntax_trees = vec![syntax_tree("const a = b\n").unwrap()];
    let unresolved_names = kick_off(&mut env, &syntax_trees);
    assert_eq!(unresolved_names, vec![path_of(&["b"])]);
    let expected = syntax_trees[0].compilation_unit.declarations.last().unwrap().as_constant().unwrap();
    let actual = *env
        .get_scope(GLOBAL_SCOPE)
        .name_spaces
        .declared
        .get(&ident("a"))
        .expect("Failed to get from namespace");
    assert_eq!(actual, DeclaredElement::Constant(DeclId { tree: 0, index: expected }))
}

#[test]
fn test_add_struct_declaration() {
    let mut syntax_trees = vec![syntax_tree("struct Text {\n const b = x\n }\n").unwrap()];
    let module_paths = prepare_module_path();
    let mut env = Environment::builder()
        .add_modules(&module_paths)
        .generate_scopes(&mut syntax_trees)
        .build()
        .unwrap();
    let unresolved_names = kick_off(&mut env, &syntax_trees);
    assert_eq!(unresolved_names, vec![path_of(&["x"])]);
    let expected = syntax_trees[0].compilation_unit.declarations.last().unwrap().as_struct().unwrap();
    let actual = *env
        .get_scope(GLOBAL_SCOPE)
        .name_spaces
        .declared
        .get(&ident("Text"))
        .expect("Failed to find from namespace");
    assert_eq!(actual, DeclaredElement::Struct(DeclId { tree: 0, index: expected }))
}

fn import(env: &mut Environment, code: &str) {
    let module_paths = [vec![], path_of(&["test"]), path_of(&["test", "nested"])];
    let syntax_trees = vec![
        syntax_tree(&format!("{}\n", code)).unwrap(),
        syntax_tree("const target = 42\nstruct Empty\n").unwrap(),
        syntax_tree("const deeper_target = 42\nstruct DeeperEmpty\n").unwrap(),
    ];
    ModuleAdder::add_modules(env, &module_paths).unwrap();
    declaration_resolution::resolve(env, &syntax_trees, &module_paths).unwrap();
}

fn declared(env: &Environment, scope: usize, name: &str) -> DeclaredElement {
    *env.get_scope(scope).name_spaces.declared.get(&ident(name)).unwrap()
}

fn assert_constant(env: &Environment, name: &str, scope_name: &[&str]) {
    let source_scope = env.find_module(&path_of(scope_name)).expect("Cannot find scope name");
    let actual = declared(env, GLOBAL_SCOPE, name);
    let expected = declared(env, source_scope, name);
    assert!(matches!(actual, DeclaredElement::Constant(_)));
    assert_eq!(actual, expected)
}

fn assert_struct(env: &Environment, name: &str, scope_name: &[&str]) {
    let source_scope = env.find_module(&path_of(scope_name)).expect("Cannot find scope name");
    let actual = declared(env, GLOBAL_SCOPE, name);
    let expected = declared(env, source_scope, name);
    assert_eq!(actual, expected)
}

#[test]
fn test_single_import_constant() {
    let mut env = Environment::new();
    import(&mut env, "use test.target");
    assert_constant(&env, "target", &["test"]);
}

#[test]
fn test_single_import_deeper_constant() {
    let mut env = Environment::new();
    import(&mut env, "use test.nested.deeper_target");
    assert_constant(&env, "deeper_target", &["test", "nested"]);
}

#[test]
fn test_single_import_struct() {
    let mut env = Environment::new();
    import(&mut env, "use test.Empty");
    assert_struct(&env, "Empty", &["test"]);
}

#[test]
fn test_single_import_deeper_struct() {
    let mut env = Environment::new();
    import(&mut env, "use test.nested.DeeperEmpty");
    assert_struct(&env, "DeeperEmpty", &["test", "nested"]);
}

#[test]
fn test_multiple_imports() {
    let mut env = Environment::new();
    import(&mut env, "use test.{ Empty, target }");
    assert_struct(&env, "Empty", &["test"]);
    assert_constant(&env, "target", &["test"]);
}

#[test]
fn test_multiple_nested_imports() {
    let mut env = Environment::new();
    import(&mut env, "use test.{ Empty, target, nested.deeper_target, nested.DeeperEmpty }");
    assert_struct(&env, "Empty", &["test"]);
    assert_constant(&env, "target", &["test"]);
    assert_struct(&env, "DeeperEmpty", &["test", "nested"]);
    assert_constant(&env, "deeper_target", &["test", "nested"]);
}

#[test]
fn test_wildcard_import() {
    let mut env = Environment::new();
    import(&mut env, "use test.*");
    assert!(env.get_scope(GLOBAL_SCOPE).name_spaces.wildcard_imports.contains(&1))
}

#[test]
fn test_single_import_module() {
    let mut env = Environment::new();
    import(&mut env, "use test.nested");
    let actual = env.get_scope(GLOBAL_SCOPE).name_spaces.modules.get(&ident("nested")).copied();
    let expected = env.find_module(&path_of(&["test", "nested"]));
    assert_eq!(actual, expected)
}

#[test]
fn test_duplicate_declaration_is_refused() {
    let mut env = Environment::new();
    let syntax_trees = vec![syntax_tree("const a = 1\nconst a = 2\n").unwrap()];
    let result = DeclarationAdder::add_from(&mut env, &syntax_trees, &prepare_module_path());
    assert!(result.is_err());
}

#[test]
fn test_import_of_unknown_name_is_refused() {
    let mut env = Environment::new();
    let module_paths = [vec![], path_of(&["test"])];
    let syntax_trees = vec![
        syntax_tree("use test.missing\n").unwrap(),
        syntax_tree("const target = 42\n").unwrap(),
    ];
    ModuleAdder::add_modules(&mut env, &module_paths).unwrap();
    assert!(declaration_resolution::resolve(&mut env, &syntax_trees, &module_paths).is_err());
}
