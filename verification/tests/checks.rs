use doc_script::ast::{AbstractSyntaxTree, DeclId, GLOBAL_SCOPE};
use doc_script::env::checks;
use doc_script::env::checks::struct_hierarchy::StructHierarchyChecker;
use doc_script::env::checks::type_checking::assignable_checker::AssignableChecker;
use doc_script::env::checks::type_checking::error::Error as ContentError;
use doc_script::env::checks::type_checking::essential_trait;
use doc_script::env::checks::type_checking::render_impl_checker::RenderImplChecker;
use doc_script::env::checks::type_checking::types::{Primitive, Types};
use doc_script::env::environment::Environment;
use doc_script::env::error::EnvError;
use doc_script::env::name_resolution::type_checking::type_checker::TypeChecker;
use doc_script::env::name_resolution::type_checking::type_conform_checker::TypeConformChecker;
use doc_script::env::scope::DeclaredElement;
use doc_script::syntax::syntax_tree;

const INT: Types = Types::Primitive(Primitive::Int);
const FLOAT: Types = Types::Primitive(Primitive::Float);
const STRING: Types = Types::Primitive(Primitive::String);
const BOOL: Types = Types::Primitive(Primitive::Bool);
const VOID: Types = Types::Primitive(Primitive::Void);

fn ident(s: &str) -> Vec<u8> {
    s.as_bytes().to_vec()
}

fn path_of(components: &[&str]) -> Vec<Vec<u8>> {
    components.iter().map(|c| ident(c)).collect()
}

fn trees(programs: &[&str]) -> Vec<AbstractSyntaxTree> {
    programs.iter().map(|p| syntax_tree(p).unwrap()).collect()
}

fn resolved(programs: &[&str], module_paths: &[Vec<Vec<u8>>]) -> (Environment, Vec<AbstractSyntaxTree>) {
    let mut syntax_trees = trees(programs);
    let env = Environment::builder()
        .add_modules(module_paths)
        .generate_scopes(&mut syntax_trees)
        .resolve_names(&syntax_trees)
        .build()
        .unwrap();
    (env, syntax_trees)
}

fn validated(programs: &[&str]) -> Result<Environment, EnvError> {
    let mut syntax_trees = trees(programs);
    let module_paths: Vec<Vec<Vec<u8>>> = programs.iter().map(|_| vec![]).collect();
    Environment::builder()
        .add_modules(&module_paths)
        .generate_scopes(&mut syntax_trees)
        .resolve_names(&syntax_trees)
        .without_entry_check()
        .validate(&syntax_trees)
        .build()
}

fn first_declaration_type(tree_index: usize, syntax_trees: &[AbstractSyntaxTree]) -> Types {
    let declaration = syntax_trees[tree_index].compilation_unit.declarations.first().expect("First declaration");
    if let Some(index) = declaration.as_struct() {
        Types::Struct(DeclId { tree: tree_index, index })
    } else {
        Types::Trait(DeclId { tree: tree_index, index: declaration.as_trait().unwrap() })
    }
}

// The hierarchy of structs.

fn last_struct(tree: &AbstractSyntaxTree) -> usize {
    tree.compilation_unit.declarations.iter().filter_map(|d| d.as_struct()).last().unwrap()
}

fn test_hierarchy_check(program: &str) -> Result<(), EnvError> {
    let (env, syntax_trees) = resolved(&[program], &[vec![]]);
    let target_declaration = DeclId { tree: 0, index: last_struct(&syntax_trees[0]) };
    let mut white_list = Vec::new();
    let res = StructHierarchyChecker::with_environment(&env, &syntax_trees)
        .test_recursively_check(target_declaration, &mut white_list);
    if res.is_ok() {
        assert!(!white_list.is_empty());
    }
    res
}

#[test]
fn test_self_reference_cycle_dependency() {
    let res = test_hierarchy_check("\n        struct A(field: A)\n        ");
    assert!(res.is_err())
}

#[test]
fn test_cycle_reference_between_structs() {
    let res = test_hierarchy_check("\n    struct A(field: B)\n    struct B(field: A)\n    ");
    assert!(res.is_err())
}

#[test]
fn test_reference_to_cycle() {
    let res = test_hierarchy_check("\n    struct A(field: B)\n    struct B(field: A)\n    struct C(field: A)\n    ");
    assert!(res.is_err())
}

#[test]
fn test_attribute_reference_to_self() {
    let res = test_hierarchy_check("\n    struct A(field: Int) {\n        const attr = A(3)\n    }\n    ");
    assert!(res.is_ok())
}

#[test]
fn test_with_whitelist() {
    let (env, syntax_trees) =
        resolved(&["\n    struct A(field: B)\n    struct B(field: A)\n    struct C(field: A)\n    "], &[vec![]]);
    let target_declaration = DeclId { tree: 0, index: last_struct(&syntax_trees[0]) };
    let declaration_of_a =
        DeclId { tree: 0, index: syntax_trees[0].compilation_unit.declarations[0].as_struct().unwrap() };
    let mut white_list = vec![declaration_of_a];
    let res = StructHierarchyChecker::with_environment(&env, &syntax_trees)
        .test_recursively_check(target_declaration, &mut white_list);
    assert!(res.is_ok())
}

#[test]
fn cycle_is_named_by_its_struct() {
    let res = test_hierarchy_check("\n        struct A(field: A)\n        ");
    assert_eq!(res, Err(EnvError::StructHierarchy(checks::Error::StructCycleDependency(ident("A")))));
}

#[test]
fn collection_of_self_is_no_cycle() {
    assert!(test_hierarchy_check("struct A(children: [A])\n").is_ok());
}

// Assignability.

fn assignable(programs: &[&str], source: Types, target: Types) -> bool {
    let module_paths: Vec<Vec<Vec<u8>>> = programs.iter().map(|_| vec![]).collect();
    let (env, syntax_trees) = resolved(programs, &module_paths);
    let mut type_checker = TypeChecker::with_environment(&env, &syntax_trees);
    let mut checker = AssignableChecker(&mut type_checker);
    checker.check(&source, &target).unwrap()
}

fn test_struct_assignable_to_trait(struct_declaration: &str) -> bool {
    let programs = [struct_declaration, "trait T(field1: Int, field2: String)\n"];
    let source = Types::Struct(DeclId { tree: 0, index: 0 });
    let target = Types::Trait(DeclId { tree: 1, index: 0 });
    assignable(&programs, source, target)
}

#[test]
fn assignable_checker_test_type_equals() {
    let env = Environment::new();
    let syntax_trees: Vec<AbstractSyntaxTree> = Vec::new();
    let mut type_checker = TypeChecker::with_environment(&env, &syntax_trees);
    let mut checker = AssignableChecker(&mut type_checker);
    assert!(checker.check(&INT, &INT).unwrap())
}

#[test]
fn assignable_checker_test_struct_field_conform_trait() {
    assert!(test_struct_assignable_to_trait("struct S(field1: Int, field2: String)\n"))
}

#[test]
fn assignable_checker_test_struct_attributes_conform_trait() {
    assert!(test_struct_assignable_to_trait(
        "\n        struct S {\n            const field1 = 3\n            const field2 = \"\"\n        }\n        "
    ))
}

#[test]
fn assignable_checker_test_struct_field_and_attribute_conform_trait() {
    assert!(test_struct_assignable_to_trait("\n        struct S(field1: Int) {\n            const field2 = \"\"\n        }\n        "))
}

#[test]
fn assignable_checker_test_struct_not_conform_different_name() {
    assert!(!test_struct_assignable_to_trait("\n        struct S(field: Int) {\n            const field2 = \"\"\n        }\n        "))
}

#[test]
fn assignable_checker_test_struct_not_conform_different_type_field() {
    assert!(!test_struct_assignable_to_trait(
        "\n        struct S(field1: String) {\n            const field2 = \"\"\n        }\n        "
    ))
}

#[test]
fn assignable_checker_test_struct_not_conform_different_type_attribute() {
    assert!(!test_struct_assignable_to_trait("\n        struct S(field1: Int) {\n            const field2 = 3\n        }\n        "))
}

#[test]
fn assignable_checker_test_trait_conform_trait() {
    let programs = ["trait SubT(field: Int, another: String, field2: String)\n", "trait T(field: Int, field2: String)\n"];
    let source = Types::Trait(DeclId { tree: 0, index: 0 });
    let target = Types::Trait(DeclId { tree: 1, index: 0 });
    assert!(assignable(&programs, source, target))
}

#[test]
fn assignable_checker_test_any_trait() {
    let (env, syntax_trees) = resolved(&["trait Any\n"], &[vec![]]);
    let trait_type = first_declaration_type(0, &syntax_trees);
    let mut type_checker = TypeChecker::with_environment(&env, &syntax_trees);
    let mut checker = AssignableChecker(&mut type_checker);
    for source_type in [INT, FLOAT, STRING, VOID, BOOL, trait_type] {
        assert!(checker.check(&source_type, &trait_type).unwrap())
    }
}

#[test]
fn self_recursive_conform_traits() {
    let (env, syntax_trees) =
        resolved(&["trait Render(rendered: Render)\n", "struct View {\nconst rendered = self\n}\n"], &[vec![], vec![]]);
    let trait_type = first_declaration_type(0, &syntax_trees);
    let struct_type = first_declaration_type(1, &syntax_trees);
    let mut type_checker = TypeChecker::with_environment(&env, &syntax_trees);
    let mut checker = AssignableChecker(&mut type_checker);
    assert!(checker.check(&struct_type, &trait_type).is_err())
}

#[test]
fn test_two_level_recursive_conform() {
    validated(&["\n                trait Id(number: Int)\n                trait People(name: String, id: Id)\n                struct IdImpl(number: Int = 42)\n                // manager does not conform to People, even though IdImpl conforms to Id\n                struct Manager(name: String, id: IdImpl) \n                struct Company(owner: People)\n                const company = Company(owner: Manager(\"Name\", IdImpl()))\n                "])
    .unwrap();
}

#[test]
fn test_int_collection_assignability() {
    validated(&["\n        struct IntArray(elements: [Int])\n        \n        const arr = IntArray([1, 2, 3])\n        "]).unwrap();
}

#[test]
fn test_assign_empty_collection() {
    validated(&["\n        struct IntArray(elements: [Int])\n        \n        const arr = []\n        "]).unwrap();
}

#[test]
fn test_assign_void_to_collection() {
    validated(&["\n        struct IntArray(elements: [Int])\n        \n        const arr = ()\n        "]).unwrap();
}

#[test]
fn void_is_assignable_to_collections() {
    let env = Environment::new();
    let syntax_trees: Vec<AbstractSyntaxTree> = Vec::new();
    let mut type_checker = TypeChecker::with_environment(&env, &syntax_trees);
    let mut checker = AssignableChecker(&mut type_checker);
    assert!(checker.check(&VOID, &Types::PrimitiveCollection(Primitive::Int)).unwrap());
    assert!(!checker.check(&INT, &Types::PrimitiveCollection(Primitive::Int)).unwrap());
}

// Conformance.

fn conforms(programs: &[&str], source: Types, target: Types) -> bool {
    let module_paths: Vec<Vec<Vec<u8>>> = programs.iter().map(|_| vec![]).collect();
    let (env, syntax_trees) = resolved(programs, &module_paths);
    let mut type_checker = TypeChecker::with_environment(&env, &syntax_trees);
    let mut checker = TypeConformChecker(&mut type_checker);
    checker.conforms(&source, &target).unwrap()
}

fn test_struct_conform_trait(struct_declaration: &str) -> bool {
    let programs = [struct_declaration, "trait T(field1: Int, field2: String)\n"];
    conforms(&programs, Types::Struct(DeclId { tree: 0, index: 0 }), Types::Trait(DeclId { tree: 1, index: 0 }))
}

#[test]
fn type_conform_checker_test_type_equals() {
    let env = Environment::new();
    let syntax_trees: Vec<AbstractSyntaxTree> = Vec::new();
    let mut type_checker = TypeChecker::with_environment(&env, &syntax_trees);
    let mut checker = TypeConformChecker(&mut type_checker);
    assert!(checker.conforms(&INT, &INT).unwrap())
}

#[test]
fn type_conform_checker_test_struct_field_conform_trait() {
    assert!(test_struct_conform_trait("struct S(field1: Int, field2: String)\n"))
}

#[test]
fn type_conform_checker_test_struct_attributes_conform_trait() {
    assert!(test_struct_conform_trait(
        "\n        struct S {\n            const field1 = 3\n            const field2 = \"\"\n        }\n        "
    ))
}

#[test]
fn type_conform_checker_test_struct_field_and_attribute_conform_trait() {
    assert!(test_struct_conform_trait("\n        struct S(field1: Int) {\n            const field2 = \"\"\n        }\n        "))
}

#[test]
fn type_conform_checker_test_struct_not_conform_different_name() {
    assert!(!test_struct_conform_trait("\n        struct S(field: Int) {\n            const field2 = \"\"\n        }\n        "))
}

#[test]
fn type_conform_checker_test_struct_not_conform_different_type_field() {
    assert!(!test_struct_conform_trait("\n        struct S(field1: String) {\n            const field2 = \"\"\n        }\n        "))
}

#[test]
fn type_conform_checker_test_struct_not_conform_different_type_attribute() {
    assert!(!test_struct_conform_trait("\n        struct S(field1: Int) {\n            const field2 = 3\n        }\n        "))
}

#[test]
fn type_conform_checker_test_trait_conform_trait() {
    let programs = ["trait SubT(field: Int, another: String, field2: String)\n", "trait T(field: Int, field2: String)\n"];
    assert!(conforms(&programs, Types::Trait(DeclId { tree: 0, index: 0 }), Types::Trait(DeclId { tree: 1, index: 0 })))
}

#[test]
fn type_conform_checker_test_any_trait() {
    let (env, syntax_trees) = resolved(&["trait Any\n"], &[vec![]]);
    let trait_type = first_declaration_type(0, &syntax_trees);
    let mut type_checker = TypeChecker::with_environment(&env, &syntax_trees);
    let mut checker = TypeConformChecker(&mut type_checker);
    for source_type in [INT, FLOAT, STRING, VOID, BOOL, trait_type] {
        assert!(checker.conforms(&source_type, &trait_type).unwrap())
    }
}

#[test]
fn different_primitives_do_not_conform() {
    let env = Environment::new();
    let syntax_trees: Vec<AbstractSyntaxTree> = Vec::new();
    let mut type_checker = TypeChecker::with_environment(&env, &syntax_trees);
    let mut checker = TypeConformChecker(&mut type_checker);
    assert!(!checker.conforms(&INT, &STRING).unwrap())
}

// The traits of `std.essential`, with a small standard library written here.

const ESSENTIAL: &str = "trait Render(rendered: Render)\n";
const ESSENTIAL_RENDER: &str = "struct Doc\nstruct Page\n";

fn with_standard_library(programs: &[&str]) -> (Vec<AbstractSyntaxTree>, Vec<Vec<Vec<u8>>>) {
    let mut sources = vec![ESSENTIAL, ESSENTIAL_RENDER];
    sources.extend_from_slice(programs);
    let mut module_paths = vec![path_of(&["std", "essential"]), path_of(&["std", "essential", "Render"])];
    module_paths.extend(programs.iter().map(|_| vec![]));
    (trees(&sources), module_paths)
}

fn resolved_with_standard_library(programs: &[&str]) -> (Environment, Vec<AbstractSyntaxTree>) {
    let (mut syntax_trees, module_paths) = with_standard_library(programs);
    let env = Environment::builder()
        .add_modules(&module_paths)
        .generate_scopes(&mut syntax_trees)
        .resolve_names(&syntax_trees)
        .build()
        .unwrap();
    (env, syntax_trees)
}

#[test]
fn test_is_not_essential_trait() {
    let env = Environment::builder().build().unwrap();
    let syntax_trees: Vec<AbstractSyntaxTree> = Vec::new();
    assert!(!RenderImplChecker { environment: &env, syntax_trees: &syntax_trees }.is_in_essential(&INT));
}

#[test]
fn test_is_essential_trait() {
    let (env, syntax_trees) = resolved_with_standard_library(&[]);
    let std_essential = env
        .find_module(&path_of(&["std", "essential"]))
        .map(|scope_id| env.get_scope(scope_id))
        .expect("Cannot find std.essential");
    let render_trait = match std_essential.name_spaces.declared.get(&ident("Render")) {
        Some(DeclaredElement::Trait(t)) => *t,
        _ => panic!("Render is not trait"),
    };
    assert!(RenderImplChecker { environment: &env, syntax_trees: &syntax_trees }
        .is_in_essential(&Types::Trait(render_trait)))
}

#[test]
fn test_impl_essential_trait() {
    let (env, syntax_trees) = resolved_with_standard_library(&[]);
    let std_essential_render = env
        .find_module(&path_of(&["std", "essential", "Render"]))
        .map(|scope_id| env.get_scope(scope_id))
        .expect("Cannot find std.essential.Render");
    let doc_type = match std_essential_render.name_spaces.declared.get(&ident("Doc")) {
        Some(DeclaredElement::Struct(s)) => *s,
        _ => panic!("Doc is not struct"),
    };
    assert!(RenderImplChecker { environment: &env, syntax_trees: &syntax_trees }
        .is_in_essential_render(&Types::Struct(doc_type)))
}

#[test]
fn test_find_render_trait() {
    let (env, _) = resolved_with_standard_library(&[]);
    assert!(essential_trait::render(&env).unwrap().is_some())
}

#[test]
fn render_missing_without_standard_library() {
    let env = Environment::new();
    assert_eq!(essential_trait::render(&env), Ok(None))
}

#[test]
fn test_impl_render() {
    let (env, syntax_trees) =
        resolved_with_standard_library(&["\nuse std.essential.Render.Page\nstruct MyPage {\n    const rendered = Page()    \n}\n"]);
    let source = Types::Struct(DeclId {
        tree: 2,
        index: syntax_trees[2].compilation_unit.declarations.iter().find_map(|d| d.as_struct()).unwrap(),
    });
    let target = essential_trait::render(&env).unwrap().unwrap();
    let mut type_checker = TypeChecker::with_environment(&env, &syntax_trees);
    let mut checker = AssignableChecker(&mut type_checker);
    assert!(checker.check(&source, &target).unwrap())
}

fn entry_check(source: &str) -> Result<(), EnvError> {
    let (mut syntax_trees, module_paths) = with_standard_library(&[source]);
    Environment::builder()
        .add_modules(&module_paths)
        .generate_scopes(&mut syntax_trees)
        .resolve_names(&syntax_trees)
        .validate(&syntax_trees)
        .build()
        .map(|_| ())
}

#[test]
fn test_entry_is_not_render() {
    assert!(matches!(entry_check("const Main = \"hello word\"\n"), Err(EnvError::TypeMismatch { .. })));
}

#[test]
fn test_entry_not_declared() {
    assert_eq!(entry_check("const NotMain = \"hello word\"\n"), Err(EnvError::EntryNotDeclared));
}

#[test]
fn test_entry_follows_render() {
    entry_check("use std.essential.Render.Doc\nconst Main = Doc()\n").unwrap();
}

#[test]
fn entry_that_is_a_struct_is_refused() {
    assert_eq!(entry_check("struct Main\n"), Err(EnvError::EntryNotConstant));
}

#[test]
fn global_scope_has_no_parent_module() {
    let env = Environment::new();
    assert!(env.get_scope(GLOBAL_SCOPE).name_spaces.modules.len() == 0);
}

// The content between the braces of a struct initialization, with the small standard library.

const USE_RENDER: &str = "use std.essential.Render\nuse std.essential.Render.Page\n";

fn validated_with_standard_library(program: &str) -> Result<Environment, EnvError> {
    let (mut syntax_trees, module_paths) = with_standard_library(&[program]);
    Environment::builder()
        .add_modules(&module_paths)
        .generate_scopes(&mut syntax_trees)
        .resolve_names(&syntax_trees)
        .without_entry_check()
        .validate(&syntax_trees)
        .build()
}

fn with_render(program: &str) -> String {
    format!("{}{}", USE_RENDER, program)
}

#[test]
fn test_init_content_not_expected() {
    let res = validated_with_standard_library("struct A\n        const a = A {\n            3\n        }\n        ");
    assert_eq!(res.err(), Some(EnvError::InitContent(ContentError::NotExpectingChildren)));
}

#[test]
fn test_init_content_not_render() {
    let res = validated_with_standard_library("struct A(children: [Render])\n    const a = A {\n        3\n    }\n    ");
    assert!(res.is_err());
}

#[test]
fn init_content_of_another_type_is_refused() {
    let program = with_render("struct A(children: [Render])\n    const a = A {\n        3\n    }\n    ");
    let res = validated_with_standard_library(&program);
    assert_eq!(res.err(), Some(EnvError::InitContent(ContentError::InitContentNotRender(ident("Int")))));
}

#[test]
fn test_init_last_field_not_children() {
    let program = with_render("struct A(children: [Render], value: Int)\n    const a = A {\n        Page()\n    }\n    ");
    let res = validated_with_standard_library(&program);
    assert_eq!(res.err(), Some(EnvError::InitContent(ContentError::LastFieldIsNotChildren)));
}

#[test]
fn test_init_content() {
    let program = with_render("struct A(children: [Render])\n    const a = A {\n        Page()\n    }\n    ");
    assert!(validated_with_standard_library(&program).is_ok());
}

#[test]
fn test_init_with_parameters() {
    let program = with_render("struct A(value: Int, children: [Render])\n    const a = A(3) {\n        Page()\n    }\n    ");
    assert!(validated_with_standard_library(&program).is_ok());
}

#[test]
fn test_assign_children_to_children() {
    let program = with_render(
        "struct A(children: [Render])\n    struct B(children: [Render]) {\n        const a = A(self.children)\n    }\n    const b = B {\n        Page()\n    }\n    ",
    );
    assert!(validated_with_standard_library(&program).is_ok());
}

#[test]
fn test_empty_children() {
    let program = with_render("struct A(children: [Render] = [])\n    const a = A()\n    ");
    assert!(validated_with_standard_library(&program).is_ok());
}

#[test]
fn structs_without_struct_fields_pass_the_hierarchy_check() {
    let (env, syntax_trees) = resolved(&["struct A(x: Int, y: String)\nstruct B(z: [Bool])\n"], &[vec![]]);
    assert_eq!(StructHierarchyChecker::with_environment(&env, &syntax_trees).check(), Ok(()));
}

#[test]
fn struct_used_by_two_structs_is_no_cycle() {
    let (env, syntax_trees) =
        resolved(&["struct A(x: Int)\nstruct B(a: A)\nstruct C(a: A)\nstruct D(first: A, second: A, b: B)\n"], &[vec![]]);
    assert_eq!(StructHierarchyChecker::with_environment(&env, &syntax_trees).check(), Ok(()));
}

#[test]
fn white_listed_struct_is_met_again_without_cycle() {
    let (env, syntax_trees) = resolved(&["struct A(x: Int)\nstruct B(x: A, y: A)\n"], &[vec![]]);
    let declaration_of_a = DeclId { tree: 0, index: syntax_trees[0].compilation_unit.declarations[0].as_struct().unwrap() };
    let mut white_list = vec![declaration_of_a];
    let res = StructHierarchyChecker::with_environment(&env, &syntax_trees)
        .test_recursively_check(DeclId { tree: 0, index: last_struct(&syntax_trees[0]) }, &mut white_list);
    assert_eq!(res, Ok(()));
}
