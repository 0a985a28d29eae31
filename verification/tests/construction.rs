use doc_script::env::env_builder::EnvironmentBuilder;
use doc_script::ast::{AbstractSyntaxTree, Declaration, Expression, GLOBAL_SCOPE};
use doc_script::env::construction::scope_operations::ScopeGenerator;
use doc_script::env::environment::Environment;
use doc_script::syntax::syntax_tree;

fn ident(s: &str) -> Vec<u8> {
    s.as_bytes().to_vec()
}

fn path_of(components: &[&str]) -> Vec<Vec<u8>> {
    components.iter().map(|c| ident(c)).collect()
}

#[test]
fn test_simple_module() {
    let env = Environment::builder().add_modules(&[path_of(&["test"])]).build().unwrap();
    let global_scope = env.get_scope(GLOBAL_SCOPE);
    assert!(global_scope.name_spaces.modules.contains_key(&ident("test")))
}

#[test]
fn test_nested_module() {
    let env = Environment::builder().add_modules(&[path_of(&["test", "doc"])]).build().unwrap();
    let global_scope = env.get_scope(GLOBAL_SCOPE);
    assert!(global_scope.name_spaces.modules.contains_key(&ident("test")));
    let scope = env.get_scope(GLOBAL_SCOPE).name_spaces.modules.get(&ident("test")).unwrap();
    let scope = env.get_scope(*scope);
    assert!(scope.name_spaces.modules.contains_key(&ident("doc")));
}

#[test]
fn test_duplicated_module() {
    let env = Environment::builder()
        .add_modules(&[path_of(&["test"]), path_of(&["test"])])
        .build()
        .unwrap();
    let global_scope = env.get_scope(GLOBAL_SCOPE);
    assert!(global_scope.name_spaces.modules.contains_key(&ident("test")))
}

#[test]
fn test_nested_diverge_module() {
    let env = Environment::builder()
        .add_modules(&[path_of(&["test", "doc"]), path_of(&["test", "image"])])
        .build()
        .unwrap();
    let global_scope = env.get_scope(GLOBAL_SCOPE);
    assert!(global_scope.name_spaces.modules.contains_key(&ident("test")));
    let scope = env.get_scope(GLOBAL_SCOPE).name_spaces.modules.get(&ident("test")).unwrap();
    let scope = env.get_scope(*scope);
    assert!(scope.name_spaces.modules.contains_key(&ident("doc")));
    assert!(scope.name_spaces.modules.contains_key(&ident("image")));
}

#[test]
fn test_modules_from_file_paths() {
    let paths = vec!["src/models/tree/tree.ds".to_string(), "src/main.ds".to_string(), "main.ds".to_string()];
    let builder = Environment::builder().add_modules_from_paths(&paths);
    assert_eq!(builder.module_paths, vec![path_of(&["models", "tree"]), path_of(&[]), path_of(&[])]);
    let env = builder.build().unwrap();
    let models = env.get_scope(GLOBAL_SCOPE).name_spaces.modules.get(&ident("models")).unwrap();
    assert!(env.get_scope(*models).name_spaces.modules.contains_key(&ident("tree")));
    assert!(!env.get_scope(GLOBAL_SCOPE).name_spaces.modules.contains_key(&ident("src")));
}

fn prepare_module_paths() -> Vec<Vec<Vec<u8>>> {
    vec![vec![]]
}

fn generate(source: &str) -> AbstractSyntaxTree {
    let mut env = Environment::new();
    let mut ast = vec![syntax_tree(source).unwrap()];
    let module_paths = prepare_module_paths();
    ScopeGenerator::generate(&mut env, &mut ast, &module_paths).unwrap();
    ast.pop().unwrap()
}

fn last_constant_value(tree: &AbstractSyntaxTree) -> &Expression {
    let index = tree
        .compilation_unit
        .declarations
        .iter()
        .filter_map(Declaration::as_constant)
        .last()
        .unwrap();
    &tree.constants[index].value
}

#[test]
fn test_scope_for_block() {
    let tree = generate("const a = { 3 }\n");
    match last_constant_value(&tree) {
        Expression::Block(block) => assert_eq!(block.scope, 1),
        other => panic!("not a block: {:?}", other),
    }
}

#[test]
fn test_scope_for_struct_init_content() {
    let tree = generate("const a = View { Text(\"\") }\n");
    let init_content = match last_constant_value(&tree) {
        Expression::StructInit { init_content, .. } => init_content.as_ref().unwrap(),
        other => panic!("not a struct initialization: {:?}", other),
    };
    match init_content.expressions.last().unwrap() {
        Expression::StructInit { name, .. } => assert_eq!(name.scope, 1),
        other => panic!("not a struct initialization: {:?}", other),
    }
}

#[test]
fn test_scope_for_struct_definition() {
    let tree = generate("struct Test { const a = 3\n }\n");
    let index = tree
        .compilation_unit
        .declarations
        .iter()
        .filter_map(Declaration::as_struct)
        .last()
        .unwrap();
    let body = tree.structs[index].body.as_ref().expect("Body is empty");
    assert_eq!(body.scope, 1)
}

#[test]
fn default_environment_has_only_the_global_scope() {
    let environment = Environment::default();
    assert_eq!(environment.scopes.len(), 1);
    assert_eq!(environment.resolved_names.len(), 0);
}

#[test]
fn source_folder_is_no_module() {
    assert_eq!(EnvironmentBuilder::convert_to_module(b"src/models/tree/tree.ds"), vec![b"models".to_vec(), b"tree".to_vec()]);
    assert_eq!(EnvironmentBuilder::convert_to_module(b"std/essential/render.ds"), vec![b"std".to_vec(), b"essential".to_vec()]);
    assert_eq!(EnvironmentBuilder::convert_to_module(b"src/main.ds"), Vec::<Vec<u8>>::new());
}

#[test]
fn module_path_extended_by_one_name() {
    let env = Environment::builder().add_modules(&[path_of(&["models", "tree"])]).build().unwrap();
    let models = env.find_module(&path_of(&["models"])).unwrap();
    let tree = env.find_module(&path_of(&["models", "tree"]));
    assert_eq!(tree, env.get_scope(models).name_spaces.modules.get(&ident("tree")).copied());
    assert!(tree.is_some());
    assert_eq!(env.find_module(&path_of(&["models", "leaf"])), None);
    assert_eq!(env.find_module(&path_of(&["missing", "tree"])), None);
}

#[test]
fn one_scope_per_new_module_prefix() {
    let env = Environment::builder()
        .add_modules(&[path_of(&["models", "tree"]), path_of(&["models", "leaf"]), path_of(&["models"])])
        .build()
        .unwrap();
    assert_eq!(env.scopes.len(), 4);
    for scope in 1..4 {
        assert_eq!(env.get_scope(scope).parent, GLOBAL_SCOPE);
    }
}
