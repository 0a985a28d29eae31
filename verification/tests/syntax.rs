use doc_script::ast::{Declaration, Expression};
use doc_script::syntax::syntax_tree;

/// The value of the first declaration, which must declare a constant.
fn first_constant_value(text: &str) -> Expression {
    let mut tree = syntax_tree(text).expect("parsed");
    let index = match tree.compilation_unit.declarations.first() {
        Some(Declaration::Constant(index)) => *index,
        _ => panic!("not a constant declaration"),
    };
    tree.constants.swap_remove(index).value
}

fn content_size(value: &Expression) -> Option<usize> {
    match value {
        Expression::StructInit { init_content, .. } => init_content.as_ref().map(|c| c.expressions.len()),
        _ => None,
    }
}

#[test]
fn constant_declaration_is_read() {
    assert!(matches!(first_constant_value("const i = 3\n"), Expression::Literal { .. }));
}

#[test]
fn empty_struct_init_is_read() {
    assert_eq!(content_size(&first_constant_value("const s = View(size: 5) { }\n")), Some(0));
}

#[test]
fn struct_init_with_content_is_read() {
    assert_eq!(content_size(&first_constant_value("const s = View(size: 5) { Text(\"abc\") }\n")), Some(1));
}

#[test]
fn struct_init_with_multiple_content_is_read() {
    let text = "const s = View(size: 5) { Text(\"abc\")\n Text(content: \"another\")\n }\n";
    assert_eq!(content_size(&first_constant_value(text)), Some(2));
}

#[test]
fn blank_text_is_an_empty_tree() {
    let tree = syntax_tree("  \n\t\r\n").expect("parsed");
    assert!(tree.compilation_unit.declarations.is_empty());
    assert!(tree.constants.is_empty());
}

#[test]
fn constants_bound_to_literals_parse() {
    let tree = syntax_tree("const a = 5\n;\nconst b = true\nconst c = 12 ;").expect("parsed");
    assert_eq!(tree.compilation_unit.declarations.len(), 3);
    assert_eq!(tree.constants.len(), 3);
    assert!(matches!(tree.compilation_unit.declarations[2], Declaration::Constant(2)));
    assert_eq!(tree.constants[0].name, b"a".to_vec());
    assert_eq!(tree.constants[2].name, b"c".to_vec());
    match &tree.constants[2].value {
        Expression::Literal { lexeme, .. } => assert_eq!(lexeme, &b"12".to_vec()),
        _ => panic!("not a literal"),
    }
}
