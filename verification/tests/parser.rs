use doc_script::parser::{
    parse, reduce, symbol_ord, terminal_ord, transit, Node, NodeKind, ParseFailure, ParseTable, ParseTree,
    Production, Symbol, START_STATE, TERMINAL_COUNT,
};
use doc_script::tokenizer::{Token, TokenKind};

const IDENTIFIER: usize = 0;
const NEW_LINE: usize = 12;
const START: usize = 13;
const END: usize = 14;
const CLOSING_BRACE: usize = 15 + 125;
const UNIT: NodeKind = NodeKind(0);

fn token(kind: TokenKind, start: usize) -> Token {
    Token { kind, start, end: start + 1 }
}

/// The automaton of `unit -> identifier newline`.
fn line_table() -> ParseTable {
    let unit = TERMINAL_COUNT;
    ParseTable {
        transitions: vec![
            vec![(START, 1)],
            vec![(IDENTIFIER, 2), (unit, 4)],
            vec![(NEW_LINE, 3)],
            vec![],
            vec![(END, 5)],
            vec![],
        ],
        reductions: vec![vec![], vec![], vec![], vec![(END, 0)], vec![], vec![]],
        rules: vec![Production {
            lhs: UNIT,
            rhs: vec![
                Symbol::Terminal(token(TokenKind::Identifier, 0)),
                Symbol::Terminal(token(TokenKind::NewLine, 0)),
            ],
        }],
        new_line_suppressors: vec![],
    }
}

/// The automaton of `unit -> identifier newline }`.
fn brace_table(new_line_suppressors: Vec<usize>) -> ParseTable {
    let unit = TERMINAL_COUNT;
    ParseTable {
        transitions: vec![
            vec![(START, 1)],
            vec![(IDENTIFIER, 2), (unit, 5)],
            vec![(NEW_LINE, 3)],
            vec![(CLOSING_BRACE, 4)],
            vec![],
            vec![(END, 6)],
            vec![],
        ],
        reductions: vec![vec![], vec![], vec![], vec![], vec![(END, 0)], vec![], vec![]],
        rules: vec![Production {
            lhs: UNIT,
            rhs: vec![
                Symbol::Terminal(token(TokenKind::Identifier, 0)),
                Symbol::Terminal(token(TokenKind::NewLine, 0)),
                Symbol::Terminal(token(TokenKind::Separator(125), 0)),
            ],
        }],
        new_line_suppressors,
    }
}

#[test]
fn test_terminal_ordinals() {
    assert_eq!(terminal_ord(TokenKind::Identifier), 0);
    assert_eq!(terminal_ord(TokenKind::NewLine), 12);
    assert_eq!(terminal_ord(TokenKind::ParsingEnd), 14);
    assert_eq!(terminal_ord(TokenKind::Separator(125)), 140);
    assert_eq!(symbol_ord(&Symbol::NonTerminal(NodeKind(3))), TERMINAL_COUNT + 3);
}

#[test]
fn test_table_checked() {
    assert!(line_table().is_wf());
    let mut unsorted = line_table();
    unsorted.transitions[1] = vec![(TERMINAL_COUNT, 4), (IDENTIFIER, 2)];
    assert!(!unsorted.is_wf());
    let mut dangling = line_table();
    dangling.transitions[2] = vec![(NEW_LINE, 9)];
    assert!(!dangling.is_wf());
}

#[test]
fn test_transit_and_reduce() {
    let table = line_table();
    assert_eq!(transit(&table, 1, &Symbol::Terminal(token(TokenKind::Identifier, 4))), Some(2));
    assert_eq!(transit(&table, 1, &Symbol::NonTerminal(UNIT)), Some(4));
    assert_eq!(transit(&table, 1, &Symbol::Terminal(token(TokenKind::NewLine, 4))), None);
    let rule = reduce(&table, 3, token(TokenKind::ParsingEnd, 0)).expect("a rule");
    assert_eq!(rule.lhs, UNIT);
    assert_eq!(rule.rhs.len(), 2);
    assert!(reduce(&table, 2, token(TokenKind::ParsingEnd, 0)).is_none());
}

#[test]
fn test_parse_line() {
    let table = line_table();
    let tokens = [token(TokenKind::Identifier, 0), token(TokenKind::NewLine, 1)];
    let tree = parse(&table, &tokens).expect("parsed");
    assert_eq!(tree.root.kind(), Some(UNIT));
    assert!(!tree.root.is_leaf());
    let children = tree.root.children();
    assert_eq!(children.len(), 2);
    assert_eq!(children[0].token(), Some(tokens[0]));
    assert_eq!(children[1].token(), Some(tokens[1]));
    assert!(children[0].is_leaf());
    assert_eq!(children[0].kind(), None);
}

#[test]
fn test_parse_unexpected_token() {
    let table = line_table();
    let tokens = [token(TokenKind::NewLine, 0)];
    assert_eq!(parse(&table, &tokens).err(), Some(ParseFailure::UnexpectedToken(tokens[0])));
}

#[test]
fn test_parse_cannot_start() {
    let mut table = line_table();
    table.transitions[START_STATE] = vec![];
    assert_eq!(parse(&table, &[]).err(), Some(ParseFailure::CannotStart));
}

#[test]
fn test_new_line_before_closing_brace() {
    let table = brace_table(vec![]);
    let tokens = [token(TokenKind::Identifier, 0), token(TokenKind::Separator(125), 2)];
    let tree = parse(&table, &tokens).expect("parsed");
    let children = tree.root.children();
    assert_eq!(children.len(), 3);
    assert_eq!(children[1].token(), Some(Token { kind: TokenKind::NewLine, start: 1, end: 1 }));
}

#[test]
fn test_suppressed_new_line() {
    let table = brace_table(vec![IDENTIFIER]);
    let tokens = [token(TokenKind::Identifier, 0), token(TokenKind::Separator(125), 2)];
    assert_eq!(parse(&table, &tokens).err(), Some(ParseFailure::UnexpectedToken(tokens[1])));
}

#[test]
fn test_new_line_dropped_before_dot() {
    let table = line_table();
    let tokens = [
        token(TokenKind::Identifier, 0),
        token(TokenKind::NewLine, 1),
        token(TokenKind::Separator(46), 2),
    ];
    assert_eq!(parse(&table, &tokens).err(), Some(ParseFailure::UnexpectedToken(tokens[2])));
}

#[test]
fn test_children_owned() {
    let leaf = Node::Leaf(token(TokenKind::Identifier, 0));
    assert!(leaf.children().is_empty());
    assert!(Node::Leaf(token(TokenKind::Identifier, 0)).children_owned().is_none());
    let node = Node::Internal { kind: UNIT, children: vec![leaf] };
    let tree = ParseTree::from(node);
    let children = tree.root.children_owned().expect("children");
    assert_eq!(children.len(), 1);
}

#[test]
fn test_symbols_equal_by_kind() {
    let a = Symbol::Terminal(token(TokenKind::Identifier, 0));
    let b = Symbol::Terminal(token(TokenKind::Identifier, 7));
    assert!(a == b);
    assert!(a != Symbol::Terminal(token(TokenKind::Const, 0)));
    assert!(Symbol::NonTerminal(UNIT) == Symbol::NonTerminal(NodeKind(0)));
    assert!(Symbol::NonTerminal(UNIT) != a);
}

/// A table whose state after the start reduces by `rule` before the end of the input, and
/// moves on the nonterminal to `after`.
fn reducing_table(rhs_len: usize, after: Vec<(usize, usize)>) -> ParseTable {
    let mut rhs = Vec::new();
    for _ in 0..rhs_len {
        rhs.push(Symbol::Terminal(token(TokenKind::Identifier, 0)));
    }
    ParseTable {
        transitions: vec![vec![(START, 1)], after],
        reductions: vec![vec![], vec![(END, 0)]],
        rules: vec![Production { lhs: UNIT, rhs }],
        new_line_suppressors: vec![],
    }
}

#[test]
fn test_parse_stack_underflow() {
    let table = reducing_table(5, vec![]);
    assert!(table.is_wf());
    assert_eq!(parse(&table, &[]).err(), Some(ParseFailure::StackUnderflow));
}

#[test]
fn test_parse_empty_stack() {
    let table = reducing_table(1, vec![]);
    assert_eq!(parse(&table, &[]).err(), Some(ParseFailure::EmptyStack));
}

#[test]
fn test_parse_cannot_transit() {
    let table = reducing_table(0, vec![]);
    assert_eq!(parse(&table, &[]).err(), Some(ParseFailure::CannotTransit(UNIT)));
}

#[test]
fn test_parse_endless_reductions() {
    let table = reducing_table(0, vec![(TERMINAL_COUNT, 1)]);
    assert_eq!(parse(&table, &[]).err(), Some(ParseFailure::TooManyReductions));
}
