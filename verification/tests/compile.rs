use doc_script::ast::DeclId;
use doc_script::env::error::EnvError;
use doc_script::env::name_resolution::resolved::Resolved;
use doc_script::{compile, in_std, CompileError, SourceFile};

fn file(path: &str, content: &str) -> SourceFile {
    SourceFile { path: path.to_string(), content: content.to_string() }
}

fn standard_library() -> Vec<SourceFile> {
    vec![
        file("std/essential/essential.ds", "trait Render(rendered: Render)\n"),
        file("std/essential/Render/render.ds", "struct Doc\nstruct Page\n"),
    ]
}

#[test]
fn program_compiles() {
    let sources = vec![file("main.ds", "use std.essential.Render.Doc\nconst Main = Doc()\n")];
    let compilation = compile(&standard_library(), &sources).expect("compiled");
    assert_eq!(compilation.syntax_trees.len(), 3);
}

#[test]
fn compiled_program_records_its_names() {
    let sources = vec![file("main.ds", "use std.essential.Render.Doc\nconst Main = Doc()\nconst Copy = Main\n")];
    let compilation = compile(&standard_library(), &sources).expect("compiled");
    let recorded = |word: &[u8]| {
        compilation
            .environment
            .resolved_names
            .entries
            .iter()
            .find(|(name, _)| name.moniker.len() == 1 && name.moniker[0] == word.to_vec())
            .map(|(_, resolved)| resolved)
    };
    assert!(matches!(recorded(b"Doc"), Some(Resolved::Struct(DeclId { tree: 1, index: 0 }))));
    assert!(matches!(recorded(b"Main"), Some(Resolved::Constant(DeclId { tree: 2, index: 0 }))));
}

#[test]
fn unknown_name_is_refused() {
    let sources = vec![file("main.ds", "const a = b\n")];
    assert!(matches!(
        compile(&standard_library(), &sources).err(),
        Some(CompileError::Environment(EnvError::UnresolvableName(_)))
    ));
}

#[test]
fn struct_cycle_is_refused() {
    let sources = vec![
        file("models/cycle.ds", "struct A(b: B)\nstruct B(a: A)\n"),
        file("main.ds", "use std.essential.Render.Doc\nconst Main = Doc()\n"),
    ];
    assert!(matches!(
        compile(&standard_library(), &sources).err(),
        Some(CompileError::Environment(EnvError::StructHierarchy(_)))
    ));
}

#[test]
fn unresolvable_import_is_refused() {
    let sources = vec![file("main.ds", "use models.tree.Missing\n"), file("models/tree/tree.ds", "struct Tree(size: Int)\n")];
    assert!(matches!(
        compile(&standard_library(), &sources).err(),
        Some(CompileError::Environment(EnvError::UnknownImport(_)))
    ));
}

#[test]
fn injection_into_std_is_refused() {
    let sources = vec![file("std/mine.ds", "const a = 1\n")];
    assert_eq!(compile(&standard_library(), &sources).err(), Some(CompileError::StdInjection(b"std/mine.ds".to_vec())));
}

#[test]
fn file_that_does_not_parse_is_named() {
    let sources = vec![file("main.ds", "const = 1\n")];
    match compile(&standard_library(), &sources) {
        Err(CompileError::Syntax { file, .. }) => assert_eq!(file, 2),
        other => panic!("not a syntax error: {:?}", other.err()),
    }
}

#[test]
fn program_without_entry_is_refused() {
    let sources = vec![file("main.ds", "const NotMain = 1\n")];
    assert_eq!(compile(&standard_library(), &sources).err(), Some(CompileError::Environment(EnvError::EntryNotDeclared)));
}

#[test]
fn std_paths() {
    assert!(in_std(b"std"));
    assert!(in_std(b"std/essential/render.ds"));
    assert!(!in_std(b"stdlib/a.ds"));
    assert!(!in_std(b"models/std/a.ds"));
    assert!(!in_std(b"st"));
}

#[test]
fn empty_files_have_no_entry() {
    let standard_library = vec![file("std/essential/essential.ds", "")];
    let sources = vec![file("src/main.ds", ""), file("src/pages/page.ds", "")];
    assert_eq!(compile(&standard_library, &sources).err(), Some(CompileError::Environment(EnvError::EntryNotDeclared)));
}

#[test]
fn empty_file_in_std_is_refused() {
    let sources = vec![file("src/main.ds", ""), file("std/mine.ds", "")];
    assert_eq!(compile(&[], &sources).err(), Some(CompileError::StdInjection(b"std/mine.ds".to_vec())));
}
