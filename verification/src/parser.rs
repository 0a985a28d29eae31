//! A table-driven LR parser: turns a stream of tokens into a parse tree whose internal
//! nodes are instances of the rules of a grammar.
//!
//! The grammar comes as a `ParseTable`: for each state of the automaton, the states it
//! moves to on each symbol, and the rule it reduces by on each terminal. Symbols are
//! looked up in the table by their ordinal, `symbol_ord`.
use crate::ast::LiteralKind;
use crate::tokenizer::{Token, TokenKind};
use vstd::prelude::*;

verus! {

/// A state of the automaton.
pub type State = usize;

/// The state the automaton starts in.
pub const START_STATE: usize = 0;

/// The number of terminal ordinals: the ordinals of nonterminals follow them.
pub const TERMINAL_COUNT: usize = 271;

/// The kind of an internal node: a nonterminal of the grammar, by its number.
#[derive(Clone, Copy, Debug, PartialEq, Eq, Structural)]
pub struct NodeKind(pub u16);

/// A node of a parse tree: a rule instance with its children, or a token.
#[derive(Debug)]
pub enum Node {
    Internal { kind: NodeKind, children: Vec<Node> },
    Leaf(Token),
}

impl Node {
    /// The children of an internal node; none for a leaf.
    pub fn children(&self) -> (r: &[Node])
        ensures
            match self {
                Node::Internal { children, .. } => r@ == children@,
                Node::Leaf(_) => r@.len() == 0,
            },
    {
        match self {
            Node::Leaf(_) => &[],
            Node::Internal { children, .. } => children.as_slice(),
        }
    }

    /// The token of a leaf.
    pub fn token(&self) -> (r: Option<Token>)
        ensures
            r == match self {
                Node::Leaf(t) => Some(*t),
                Node::Internal { .. } => None::<Token>,
            },
    {
        match self {
            Node::Leaf(token) => Some(*token),
            Node::Internal { .. } => None,
        }
    }

    /// The kind of an internal node.
    pub fn kind(&self) -> (r: Option<NodeKind>)
        ensures
            r == match self {
                Node::Internal { kind, .. } => Some(*kind),
                Node::Leaf(_) => None::<NodeKind>,
            },
    {
        match self {
            Node::Internal { kind, .. } => Some(*kind),
            Node::Leaf(_) => None,
        }
    }

    /// Whether the node is a leaf.
    pub fn is_leaf(&self) -> (r: bool)
        ensures
            r == (self is Leaf),
    {
        match self {
            Node::Leaf(_) => true,
            Node::Internal { .. } => false,
        }
    }

    /// The children of an internal node, taken out of it.
    pub fn children_owned(self) -> (r: Option<Vec<Node>>)
        ensures
            match self {
                Node::Internal { children, .. } => r == Some(children),
                Node::Leaf(_) => r is None,
            },
    {
        match self {
            Node::Internal { children, .. } => Some(children),
            Node::Leaf(_) => None,
        }
    }
}

/// A symbol of the grammar: a nonterminal, or a terminal given by a token of its kind.
#[derive(Clone, Copy, Debug)]
pub enum Symbol {
    NonTerminal(NodeKind),
    Terminal(Token),
}

impl PartialEq for Symbol {
    fn eq(&self, other: &Self) -> (r: bool) {
        match (self, other) {
            (Symbol::NonTerminal(a), Symbol::NonTerminal(b)) => a == b,
            (Symbol::Terminal(a), Symbol::Terminal(b)) => a.kind == b.kind,
            _ => false,
        }
    }
}

impl vstd::std_specs::cmp::PartialEqSpecImpl for Symbol {
    open spec fn obeys_eq_spec() -> bool {
        true
    }

    open spec fn eq_spec(&self, other: &Symbol) -> bool {
        same_symbol(*self, *other)
    }
}

/// Two symbols are equal where they are the same nonterminal, or terminals of the same
/// kind: the text and position of a token do not matter.
pub open spec fn same_symbol(a: Symbol, b: Symbol) -> bool {
    match (a, b) {
        (Symbol::NonTerminal(x), Symbol::NonTerminal(y)) => x == y,
        (Symbol::Terminal(x), Symbol::Terminal(y)) => x.kind == y.kind,
        _ => false,
    }
}

/// A rule of the grammar: the nonterminal on its left and the symbols on its right.
#[derive(Debug)]
pub struct Production {
    pub lhs: NodeKind,
    pub rhs: Vec<Symbol>,
}

/// The tree of a whole input.
#[derive(Debug)]
pub struct ParseTree {
    pub root: Node,
}

impl From<Node> for ParseTree {
    fn from(node: Node) -> (tree: Self) {
        ParseTree { root: node }
    }
}

impl vstd::std_specs::convert::FromSpecImpl<Node> for ParseTree {
    open spec fn obeys_from_spec() -> bool {
        true
    }

    open spec fn from_spec(node: Node) -> ParseTree {
        ParseTree { root: node }
    }
}

/// The number of a literal kind among the literals.
pub open spec fn literal_ord(k: LiteralKind) -> nat {
    match k {
        LiteralKind::Integer => 0,
        LiteralKind::Floating => 1,
        LiteralKind::Hex => 2,
        LiteralKind::Binary => 3,
        LiteralKind::Boolean => 4,
        LiteralKind::String => 5,
    }
}

/// The ordinal of a terminal, by the kind of its token: the words first, then the literals,
/// the line break, the start and the end of the input, then the separators by their byte.
pub open spec fn terminal_ord_spec(kind: TokenKind) -> nat {
    match kind {
        TokenKind::Identifier => 0,
        TokenKind::Const => 1,
        TokenKind::Struct => 2,
        TokenKind::Trait => 3,
        TokenKind::Use => 4,
        TokenKind::SelfKeyword => 5,
        TokenKind::Literal(k) => 6 + literal_ord(k),
        TokenKind::NewLine => 12,
        TokenKind::ParsingStart => 13,
        TokenKind::ParsingEnd => 14,
        TokenKind::Separator(b) => (15 + b) as nat,
    }
}

/// The ordinal of a symbol: that of a terminal, or a nonterminal's number after all of
/// the terminals.
pub open spec fn symbol_ord_spec(symbol: Symbol) -> nat {
    match symbol {
        Symbol::Terminal(t) => terminal_ord_spec(t.kind),
        Symbol::NonTerminal(k) => (TERMINAL_COUNT + k.0) as nat,
    }
}

/// Two symbols are equal exactly when their ordinals are: the table tells apart the
/// symbols that `==` tells apart, and no others.
pub proof fn lemma_symbol_ord_matches_equality(a: Symbol, b: Symbol)
    ensures
        (symbol_ord_spec(a) == symbol_ord_spec(b)) == same_symbol(a, b),
{
    match (a, b) {
        (Symbol::Terminal(x), Symbol::Terminal(y)) => {
            if terminal_ord_spec(x.kind) == terminal_ord_spec(y.kind) {
                match (x.kind, y.kind) {
                    (TokenKind::Literal(k), TokenKind::Literal(l)) => {
                        assert(literal_ord(k) == literal_ord(l));
                        assert(k == l);
                    },
                    _ => {},
                }
            }
        },
        _ => {},
    }
}

/// The ordinal of a terminal, by the kind of its token.
pub fn terminal_ord(kind: TokenKind) -> (r: usize)
    ensures
        r == terminal_ord_spec(kind),
        r < TERMINAL_COUNT,
{
    match kind {
        TokenKind::Identifier => 0,
        TokenKind::Const => 1,
        TokenKind::Struct => 2,
        TokenKind::Trait => 3,
        TokenKind::Use => 4,
        TokenKind::SelfKeyword => 5,
        TokenKind::Literal(k) => 6 + match k {
            LiteralKind::Integer => 0,
            LiteralKind::Floating => 1,
            LiteralKind::Hex => 2,
            LiteralKind::Binary => 3,
            LiteralKind::Boolean => 4,
            LiteralKind::String => 5,
        },
        TokenKind::NewLine => 12,
        TokenKind::ParsingStart => 13,
        TokenKind::ParsingEnd => 14,
        TokenKind::Separator(b) => 15 + b as usize,
    }
}

/// The ordinal of a symbol, by which the table is looked up.
pub fn symbol_ord(symbol: &Symbol) -> (r: usize)
    ensures
        r == symbol_ord_spec(*symbol),
{
    match symbol {
        Symbol::Terminal(t) => terminal_ord(t.kind),
        Symbol::NonTerminal(k) => TERMINAL_COUNT + k.0 as usize,
    }
}

/// The value under the key in a row of the table, if the row has the key.
pub open spec fn row_get(row: Seq<(usize, usize)>, key: nat) -> Option<usize> {
    if exists|i: int| 0 <= i < row.len() && row[i].0 == key {
        Some(row[choose|i: int| 0 <= i < row.len() && row[i].0 == key].1)
    } else {
        None
    }
}

/// The keys of the row strictly increase.
pub open spec fn row_sorted(row: Seq<(usize, usize)>) -> bool {
    forall|i: int, j: int| 0 <= i < j < row.len() ==> row[i].0 < row[j].0
}

/// The value under the key in a row whose keys strictly increase, found by halving.
fn row_lookup(row: &Vec<(usize, usize)>, key: usize) -> (r: Option<usize>)
    requires
        row_sorted(row@),
    ensures
        r == row_get(row@, key as nat),
{
    let mut low: usize = 0;
    let mut high: usize = row.len();
    while low < high
        invariant
            row_sorted(row@),
            low <= high <= row@.len(),
            forall|i: int| 0 <= i < low ==> row@[i].0 < key,
            forall|i: int| high <= i < row@.len() ==> row@[i].0 > key,
        decreases high - low,
    {
        let middle = low + (high - low) / 2;
        let k = row[middle].0;
        if k == key {
            proof {
                let c = choose|i: int| 0 <= i < row@.len() && row@[i].0 == key;
                assert(c == middle) by {
                    if c < middle {
                        assert(row@[c].0 < row@[middle as int].0);
                    } else if c > middle {
                        assert(row@[middle as int].0 < row@[c].0);
                    }
                }
            }
            return Some(row[middle].1);
        } else if k < key {
            proof {
                assert forall|i: int| 0 <= i < middle + 1 implies row@[i].0 < key by {
                    if i < middle {
                        assert(row@[i].0 < row@[middle as int].0);
                    }
                }
            }
            low = middle + 1;
        } else {
            proof {
                assert forall|i: int| middle <= i < row@.len() implies row@[i].0 > key by {
                    if i > middle {
                        assert(row@[middle as int].0 < row@[i].0);
                    }
                }
            }
            high = middle;
        }
    }
    proof {
        assert(!(exists|i: int| 0 <= i < row@.len() && row@[i].0 == key));
    }
    None
}

/// The automaton of a grammar: for each state, the states it moves to on the ordinals of
/// symbols, and the numbers of the rules it reduces by on the ordinals of terminals; the
/// rules; and the terminals after which no line break is put before a closing brace.
pub struct ParseTable {
    pub transitions: Vec<Vec<(usize, State)>>,
    pub reductions: Vec<Vec<(usize, usize)>>,
    pub rules: Vec<Production>,
    pub new_line_suppressors: Vec<usize>,
}

impl ParseTable {
    /// The table is usable: the start state exists, every state has its row of transitions
    /// and of reductions, each row is sorted by ordinal without repeats, and every state
    /// and rule it names exists.
    pub open spec fn wf(&self) -> bool {
        &&& self.transitions@.len() > START_STATE
        &&& self.reductions@.len() == self.transitions@.len()
        &&& forall|s: int| 0 <= s < self.transitions@.len() ==> row_sorted(#[trigger] self.transitions@[s]@)
        &&& forall|s: int| 0 <= s < self.reductions@.len() ==> row_sorted(#[trigger] self.reductions@[s]@)
        &&& forall|s: int, i: int|
            0 <= s < self.transitions@.len() && 0 <= i < self.transitions@[s]@.len() ==> #[trigger] self.transitions@[s]@[i].1
                < self.transitions@.len()
        &&& forall|s: int, i: int|
            0 <= s < self.reductions@.len() && 0 <= i < self.reductions@[s]@.len() ==> #[trigger] self.reductions@[s]@[i].1
                < self.rules@.len()
    }

    /// Whether the table is usable.
    pub fn is_wf(&self) -> (r: bool)
        ensures
            r == self.wf(),
    {
        if self.transitions.len() <= START_STATE || self.reductions.len() != self.transitions.len() {
            return false;
        }
        let n = self.transitions.len();
        let mut s: usize = 0;
        while s < n
            invariant
                n == self.transitions@.len(),
                self.reductions@.len() == n,
                s <= n,
                forall|q: int| 0 <= q < s ==> row_sorted(#[trigger] self.transitions@[q]@),
                forall|q: int| 0 <= q < s ==> row_sorted(#[trigger] self.reductions@[q]@),
                forall|q: int, i: int|
                    0 <= q < s && 0 <= i < self.transitions@[q]@.len() ==> #[trigger] self.transitions@[q]@[i].1 < n,
                forall|q: int, i: int|
                    0 <= q < s && 0 <= i < self.reductions@[q]@.len() ==> #[trigger] self.reductions@[q]@[i].1
                        < self.rules@.len(),
            decreases n - s,
        {
            if !row_checked(&self.transitions[s], n) || !row_checked(&self.reductions[s], self.rules.len()) {
                return false;
            }
            s = s + 1;
        }
        true
    }
}

/// Whether the keys of the row strictly increase and its values are below `bound`.
fn row_checked(row: &Vec<(usize, usize)>, bound: usize) -> (r: bool)
    ensures
        r == (row_sorted(row@) && forall|i: int| 0 <= i < row@.len() ==> #[trigger] row@[i].1 < bound),
{
    let mut i: usize = 0;
    while i < row.len()
        invariant
            i <= row@.len(),
            forall|a: int, b: int| 0 <= a < b < i ==> row@[a].0 < row@[b].0,
            forall|a: int| 0 <= a < i ==> #[trigger] row@[a].1 < bound,
        decreases row@.len() - i,
    {
        if row[i].1 >= bound {
            return false;
        }
        if i > 0 && row[i - 1].0 >= row[i].0 {
            return false;
        }
        proof {
            assert forall|a: int, b: int| 0 <= a < b < i + 1 implies row@[a].0 < row@[b].0 by {
                if b == i && a < i - 1 {
                    assert(row@[a].0 < row@[i - 1].0);
                }
            }
        }
        i = i + 1;
    }
    true
}

/// The state the automaton moves to from `state` on the symbol, if it has a move.
pub fn transit(table: &ParseTable, state: State, symbol: &Symbol) -> (r: Option<State>)
    requires
        table.wf(),
        state < table.transitions@.len(),
    ensures
        r == row_get(table.transitions@[state as int]@, symbol_ord_spec(*symbol)),
        r matches Some(s) ==> s < table.transitions@.len(),
{
    let r = row_lookup(&table.transitions[state], symbol_ord(symbol));
    proof {
        let row = table.transitions@[state as int]@;
        let key = symbol_ord_spec(*symbol);
        if exists|i: int| 0 <= i < row.len() && row[i].0 == key {
            let c = choose|i: int| 0 <= i < row.len() && row[i].0 == key;
            assert(table.transitions@[state as int]@[c].1 < table.transitions@.len());
        }
    }
    r
}

/// The rule the automaton reduces by in `state` when the next terminal is the token, if
/// any.
pub fn reduce<'t>(table: &'t ParseTable, state: State, terminal: Token) -> (r: Option<&'t Production>)
    requires
        table.wf(),
        state < table.transitions@.len(),
    ensures
        match row_get(table.reductions@[state as int]@, terminal_ord_spec(terminal.kind)) {
            Some(n) => r == Some(&table.rules@[n as int]),
            None => r is None,
        },
{
    match row_lookup(&table.reductions[state], terminal_ord(terminal.kind)) {
        Some(n) => {
            proof {
                let row = table.reductions@[state as int]@;
                let key = terminal_ord_spec(terminal.kind);
                let c = choose|i: int| 0 <= i < row.len() && row[i].0 == key;
                assert(table.reductions@[state as int]@[c].1 < table.rules@.len());
            }
            Some(&table.rules[n])
        },
        None => None,
    }
}

/// The most reductions the automaton makes before it moves on one token.
pub const MAX_REDUCTIONS: usize = 1048576;

/// The token that stands before the input.
pub open spec fn start_token_spec() -> Token {
    Token { kind: TokenKind::ParsingStart, start: 0, end: 0 }
}

/// The token that stands after the input.
pub open spec fn end_token_spec() -> Token {
    Token { kind: TokenKind::ParsingEnd, start: 0, end: 0 }
}

/// The token that stands before the input.
pub fn start_token() -> (t: Token)
    ensures
        t == start_token_spec(),
{
    Token { kind: TokenKind::ParsingStart, start: 0, end: 0 }
}

/// The token that stands after the input.
pub fn end_token() -> (t: Token)
    ensures
        t == end_token_spec(),
{
    Token { kind: TokenKind::ParsingEnd, start: 0, end: 0 }
}

/// A line break put at a position of the source.
pub open spec fn new_line_at(position: usize) -> Token {
    Token { kind: TokenKind::NewLine, start: position, end: position }
}

/// Whether the table says that no line break goes after a token of this kind.
pub open spec fn suppresses_new_line(table: &ParseTable, t: Token) -> bool {
    table.new_line_suppressors@.contains(terminal_ord_spec(t.kind) as usize)
}

/// What a token becomes, given the token after it: a line break before `.` or `,` is
/// dropped; a token before `}` gets a line break after it, unless it suppresses one; any
/// other token stays as it is.
pub open spec fn normalized_token(table: &ParseTable, t: Token, next: Option<Token>) -> Seq<Token> {
    match next {
        Some(n) => if t.kind == TokenKind::NewLine && (n.kind == TokenKind::Separator(46) || n.kind == TokenKind::Separator(
            44,
        )) {
            Seq::empty()
        } else if n.kind == TokenKind::Separator(125) && !suppresses_new_line(table, t) {
            seq![t, new_line_at(t.end)]
        } else {
            seq![t]
        },
        None => seq![t],
    }
}

/// The tokens of the stream, followed by the end of the input.
pub open spec fn stream_of(tokens: Seq<Token>) -> Seq<Token> {
    tokens.push(end_token_spec())
}

/// What the first `n` tokens of the stream become, one after the other.
pub open spec fn normalized_prefix(table: &ParseTable, stream: Seq<Token>, n: int) -> Seq<Token>
    decreases n,
{
    if n <= 0 {
        Seq::empty()
    } else {
        normalized_prefix(table, stream, n - 1) + normalized_token(
            table,
            stream[n - 1],
            if n < stream.len() {
                Some(stream[n])
            } else {
                None
            },
        )
    }
}

/// The tokens at the leaves of a node, from left to right.
pub open spec fn frontier(node: Node) -> Seq<Token>
    decreases node,
{
    match node {
        Node::Leaf(t) => seq![t],
        Node::Internal { children, .. } => frontier_of(children@),
    }
}

/// The tokens at the leaves of nodes, one node after the other.
pub open spec fn frontier_of(nodes: Seq<Node>) -> Seq<Token>
    decreases nodes,
{
    if nodes.len() == 0 {
        Seq::empty()
    } else {
        frontier_of(nodes.subrange(0, nodes.len() - 1)) + frontier(nodes[nodes.len() - 1])
    }
}

/// Every internal node of the tree is an instance of a rule: its kind is the rule's left
/// side, and it has a child for each symbol of the right side.
pub open spec fn derived(node: Node, rules: Seq<Production>) -> bool
    decreases node,
{
    match node {
        Node::Leaf(_) => true,
        Node::Internal { kind, children } => {
            &&& exists|r: int| 0 <= r < rules.len() && #[trigger] rules[r].lhs == kind && rules[r].rhs@.len() == children@.len()
            &&& forall|i: int| 0 <= i < children@.len() ==> derived(#[trigger] children@[i], rules)
        },
    }
}

proof fn lemma_frontier_push(nodes: Seq<Node>, n: Node)
    ensures
        frontier_of(nodes.push(n)) == frontier_of(nodes) + frontier(n),
{
    assert(nodes.push(n).subrange(0, nodes.len() as int) =~= nodes);
}

proof fn lemma_frontier_concat(a: Seq<Node>, b: Seq<Node>)
    ensures
        frontier_of(a + b) == frontier_of(a) + frontier_of(b),
    decreases b.len(),
{
    if b.len() == 0 {
        assert(a + b =~= a);
        assert(frontier_of(b) =~= Seq::<Token>::empty());
        assert(frontier_of(a) + frontier_of(b) =~= frontier_of(a));
    } else {
        let b0 = b.subrange(0, b.len() - 1);
        lemma_frontier_concat(a, b0);
        assert((a + b).subrange(0, (a + b).len() - 1) =~= a + b0);
        assert((a + b)[(a + b).len() - 1] == b[b.len() - 1]);
        assert(frontier_of(a) + frontier_of(b) =~= frontier_of(a) + frontier_of(b0) + frontier(b[b.len() - 1]));
    }
}

/// A node of a parse tree as a value: a token, or a nonterminal with its children.
pub enum NodeView {
    Leaf(Token),
    Internal(NodeKind, Seq<NodeView>),
}

/// The value of a node.
pub open spec fn node_view(node: Node) -> NodeView
    decreases node,
{
    match node {
        Node::Leaf(t) => NodeView::Leaf(t),
        Node::Internal { kind, children } => NodeView::Internal(kind, nodes_view(children@)),
    }
}

/// The values of nodes, one after the other.
pub open spec fn nodes_view(nodes: Seq<Node>) -> Seq<NodeView>
    decreases nodes,
{
    if nodes.len() == 0 {
        Seq::empty()
    } else {
        nodes_view(nodes.subrange(0, nodes.len() - 1)).push(node_view(nodes[nodes.len() - 1]))
    }
}

proof fn lemma_nodes_view_push(nodes: Seq<Node>, n: Node)
    ensures
        nodes_view(nodes.push(n)) == nodes_view(nodes).push(node_view(n)),
{
    assert(nodes.push(n).subrange(0, nodes.len() as int) =~= nodes);
}

proof fn lemma_nodes_view_concat(a: Seq<Node>, b: Seq<Node>)
    ensures
        nodes_view(a + b) == nodes_view(a) + nodes_view(b),
    decreases b.len(),
{
    if b.len() == 0 {
        assert(a + b =~= a);
        assert(nodes_view(a) + nodes_view(b) =~= nodes_view(a));
    } else {
        let b0 = b.subrange(0, b.len() - 1);
        lemma_nodes_view_concat(a, b0);
        assert((a + b).subrange(0, (a + b).len() - 1) =~= a + b0);
        assert((a + b)[(a + b).len() - 1] == b[b.len() - 1]);
        assert(nodes_view(a) + nodes_view(b) =~= (nodes_view(a) + nodes_view(b0)).push(node_view(b[b.len() - 1])));
    }
}

proof fn lemma_nodes_view_index(nodes: Seq<Node>)
    ensures
        nodes_view(nodes).len() == nodes.len(),
        forall|i: int| 0 <= i < nodes.len() ==> #[trigger] nodes_view(nodes)[i] == node_view(nodes[i]),
    decreases nodes.len(),
{
    if nodes.len() > 0 {
        let n0 = nodes.subrange(0, nodes.len() - 1);
        lemma_nodes_view_index(n0);
        assert forall|i: int| 0 <= i < nodes.len() implies #[trigger] nodes_view(nodes)[i] == node_view(nodes[i]) by {
            if i < nodes.len() - 1 {
                assert(n0[i] == nodes[i]);
            }
        }
    }
}

/// Why a stream of tokens could not be parsed.
#[derive(Debug, PartialEq, Eq)]
pub enum ParseFailure {
    /// The automaton has no move on the start of the input.
    CannotStart,
    /// A rule to reduce by has more symbols than the stack has nodes.
    StackUnderflow,
    /// A reduction left no state to move from.
    EmptyStack,
    /// No move on the nonterminal a rule reduced to.
    CannotTransit(NodeKind),
    /// No move on the token: the grammar does not expect it there.
    UnexpectedToken(Token),
    /// The automaton kept reducing before one token.
    TooManyReductions,
}

/// What a token becomes, given the token after it: see `normalized_token`.
fn skip_or_insert_new_lines(table: &ParseTable, token: Token, next_token: Option<Token>) -> (r: Vec<Token>)
    ensures
        r@ == normalized_token(table, token, next_token),
{
    match next_token {
        Some(next) => {
            if token.kind == TokenKind::NewLine && (next.kind == TokenKind::Separator(46) || next.kind == TokenKind::Separator(44)) {
                Vec::new()
            } else if next.kind == TokenKind::Separator(125) && !suppresses(table, token) {
                let line = Token { kind: TokenKind::NewLine, start: token.end, end: token.end };
                let mut r = Vec::new();
                r.push(token);
                r.push(line);
                proof {
                    assert(r@ =~= seq![token, new_line_at(token.end)]);
                }
                r
            } else {
                let mut r = Vec::new();
                r.push(token);
                proof {
                    assert(r@ =~= seq![token]);
                }
                r
            }
        },
        None => {
            let mut r = Vec::new();
            r.push(token);
            proof {
                assert(r@ =~= seq![token]);
            }
            r
        },
    }
}

/// Whether the table says that no line break goes after the token.
fn suppresses(table: &ParseTable, token: Token) -> (r: bool)
    ensures
        r == suppresses_new_line(table, token),
{
    let ord = terminal_ord(token.kind);
    let mut i: usize = 0;
    while i < table.new_line_suppressors.len()
        invariant
            i <= table.new_line_suppressors@.len(),
            ord == terminal_ord_spec(token.kind),
            forall|j: int| 0 <= j < i ==> table.new_line_suppressors@[j] != ord,
        decreases table.new_line_suppressors@.len() - i,
    {
        if table.new_line_suppressors[i] == ord {
            assert(table.new_line_suppressors@[i as int] == ord);
            return true;
        }
        i = i + 1;
    }
    false
}

/// The rule the automaton reduces by in `state` when the next terminal is `t`, if any.
pub open spec fn reduction_rule(table: &ParseTable, state: State, t: Token) -> Option<Production> {
    match row_get(table.reductions@[state as int]@, terminal_ord_spec(t.kind)) {
        Some(n) => Some(table.rules@[n as int]),
        None => None,
    }
}

/// The state the automaton moves to from `state` on the symbol, if it has a move.
pub open spec fn move_on(table: &ParseTable, state: State, symbol: Symbol) -> Option<State> {
    row_get(table.transitions@[state as int]@, symbol_ord_spec(symbol))
}

/// The states left on the stack once the automaton has made, before the terminal `t`,
/// every reduction its top state calls for, with at most `fuel` of them: each pops as many
/// states as its rule has symbols and moves on the rule's nonterminal from the state below.
pub open spec fn reduce_states(table: &ParseTable, states: Seq<State>, t: Token, fuel: nat) -> Result<Seq<State>, ParseFailure>
    decreases fuel,
{
    match reduction_rule(table, states.last(), t) {
        None => Ok(states),
        Some(p) => if fuel == 0 {
            Err(ParseFailure::TooManyReductions)
        } else if p.rhs@.len() > states.len() {
            Err(ParseFailure::StackUnderflow)
        } else if p.rhs@.len() == states.len() {
            Err(ParseFailure::EmptyStack)
        } else {
            let kept = states.take(states.len() - p.rhs@.len());
            match move_on(table, kept.last(), Symbol::NonTerminal(p.lhs)) {
                None => Err(ParseFailure::CannotTransit(p.lhs)),
                Some(s) => reduce_states(table, kept.push(s), t, (fuel - 1) as nat),
            }
        },
    }
}

/// The states after the automaton reads the terminal `t`: its reductions, then its move on
/// `t`.
pub open spec fn shift_states(table: &ParseTable, states: Seq<State>, t: Token) -> Result<Seq<State>, ParseFailure> {
    match reduce_states(table, states, t, MAX_REDUCTIONS as nat) {
        Err(e) => Err(e),
        Ok(r) => match move_on(table, r.last(), Symbol::Terminal(t)) {
            None => Err(ParseFailure::UnexpectedToken(t)),
            Some(s) => Ok(r.push(s)),
        },
    }
}

/// The states after the automaton reads the terminals one after the other, or the first
/// failure.
pub open spec fn run_states(table: &ParseTable, states: Seq<State>, ts: Seq<Token>) -> Result<Seq<State>, ParseFailure>
    decreases ts.len(),
{
    if ts.len() == 0 {
        Ok(states)
    } else {
        match run_states(table, states, ts.drop_last()) {
            Err(e) => Err(e),
            Ok(s) => shift_states(table, s, ts.last()),
        }
    }
}

/// The run of the automaton on the input: its move on the start of the input, then the
/// normalized stream with the end of the input. It accepts where it reads the whole stream
/// and holds a node under the end of the input.
pub open spec fn parse_outcome(table: &ParseTable, tokens: Seq<Token>) -> Result<(), ParseFailure> {
    match move_on(table, START_STATE, Symbol::Terminal(start_token_spec())) {
        None => Err(ParseFailure::CannotStart),
        Some(first) => match run_states(table, seq![first], normalized_prefix(table, stream_of(tokens), tokens.len() as int + 1)) {
            Err(e) => Err(e),
            Ok(s) => if s.len() >= 2 {
                Ok(())
            } else {
                Err(ParseFailure::EmptyStack)
            },
        },
    }
}

/// The nodes on the stack once the automaton has made, before the terminal `t`, the
/// reductions that `reduce_states` describes: each replaces the nodes of its rule's right
/// side by one node of its left side over them.
pub open spec fn reduce_nodes(table: &ParseTable, states: Seq<State>, nodes: Seq<NodeView>, t: Token, fuel: nat) -> Seq<NodeView>
    decreases fuel,
{
    match reduction_rule(table, states.last(), t) {
        None => nodes,
        Some(p) => if fuel == 0 || p.rhs@.len() >= states.len() {
            nodes
        } else {
            let k = states.len() - p.rhs@.len();
            let kept = states.take(k);
            match move_on(table, kept.last(), Symbol::NonTerminal(p.lhs)) {
                None => nodes,
                Some(s) => reduce_nodes(
                    table,
                    kept.push(s),
                    nodes.take(k).push(NodeView::Internal(p.lhs, nodes.skip(k))),
                    t,
                    (fuel - 1) as nat,
                ),
            }
        },
    }
}

/// The nodes after the automaton reads the terminal `t`: those of its reductions, then a
/// leaf for `t`.
pub open spec fn shift_nodes(table: &ParseTable, states: Seq<State>, nodes: Seq<NodeView>, t: Token) -> Seq<NodeView> {
    reduce_nodes(table, states, nodes, t, MAX_REDUCTIONS as nat).push(NodeView::Leaf(t))
}

/// The nodes after the automaton reads the terminals one after the other, as long as it
/// does not fail.
pub open spec fn run_nodes(table: &ParseTable, states: Seq<State>, nodes: Seq<NodeView>, ts: Seq<Token>) -> Seq<NodeView>
    decreases ts.len(),
{
    if ts.len() == 0 {
        nodes
    } else {
        match run_states(table, states, ts.drop_last()) {
            Ok(s) => shift_nodes(table, s, run_nodes(table, states, nodes, ts.drop_last()), ts.last()),
            Err(_) => nodes,
        }
    }
}

/// The tree of the input: the node under the end of the input once the automaton has read
/// the whole normalized stream.
pub open spec fn parse_tree_view(table: &ParseTable, tokens: Seq<Token>) -> NodeView {
    match move_on(table, START_STATE, Symbol::Terminal(start_token_spec())) {
        Some(first) => {
            let nodes = run_nodes(
                table,
                seq![first],
                seq![NodeView::Leaf(start_token_spec())],
                normalized_prefix(table, stream_of(tokens), tokens.len() as int + 1),
            );
            nodes[nodes.len() - 2]
        },
        None => NodeView::Leaf(start_token_spec()),
    }
}

proof fn lemma_prefix_grows(table: &ParseTable, stream: Seq<Token>, n: int, m: int)
    requires
        0 <= n <= m,
    ensures
        normalized_prefix(table, stream, n).len() <= normalized_prefix(table, stream, m).len(),
        normalized_prefix(table, stream, m) =~= normalized_prefix(table, stream, n) + normalized_prefix(table, stream, m).skip(
            normalized_prefix(table, stream, n).len() as int,
        ),
    decreases m - n,
{
    if n < m {
        lemma_prefix_grows(table, stream, n, m - 1);
    }
}

proof fn lemma_failure_stays(table: &ParseTable, states: Seq<State>, a: Seq<Token>, b: Seq<Token>, e: ParseFailure)
    requires
        run_states(table, states, a) == Err::<Seq<State>, ParseFailure>(e),
    ensures
        run_states(table, states, a + b) == Err::<Seq<State>, ParseFailure>(e),
    decreases b.len(),
{
    if b.len() == 0 {
        assert(a + b =~= a);
    } else {
        lemma_failure_stays(table, states, a, b.drop_last(), e);
        assert((a + b).drop_last() =~= a + b.drop_last());
    }
}

/// Where the automaton fails on the `k`-th token that the `i`-th token of the stream
/// becomes, the whole run fails the same way.
proof fn lemma_token_fails(
    table: &ParseTable,
    tokens: Seq<Token>,
    first: State,
    i: int,
    normalized: Seq<Token>,
    k: int,
    before: Seq<State>,
    e: ParseFailure,
)
    requires
        move_on(table, START_STATE, Symbol::Terminal(start_token_spec())) == Some(first),
        0 <= i <= tokens.len(),
        normalized == normalized_token(
            table,
            stream_of(tokens)[i],
            if i + 1 < stream_of(tokens).len() {
                Some(stream_of(tokens)[i + 1])
            } else {
                None
            },
        ),
        0 <= k < normalized.len(),
        run_states(table, seq![first], normalized_prefix(table, stream_of(tokens), i) + normalized.take(k)) == Ok::<
            Seq<State>,
            ParseFailure,
        >(before),
        shift_states(table, before, normalized[k]) == Err::<Seq<State>, ParseFailure>(e),
    ensures
        parse_outcome(table, tokens) == Err::<(), ParseFailure>(e),
{
    let stream = stream_of(tokens);
    let done = normalized_prefix(table, stream, i) + normalized.take(k + 1);
    assert(done.drop_last() =~= normalized_prefix(table, stream, i) + normalized.take(k));
    assert(done.last() == normalized[k]);
    assert(run_states(table, seq![first], done) == Err::<Seq<State>, ParseFailure>(e));
    assert(normalized_prefix(table, stream, i + 1) == normalized_prefix(table, stream, i) + normalized);
    lemma_prefix_grows(table, stream, i + 1, tokens.len() as int + 1);
    let all = normalized_prefix(table, stream, tokens.len() as int + 1);
    let rest = all.skip(normalized_prefix(table, stream, i + 1).len() as int);
    assert(all =~= done + (normalized.skip(k + 1) + rest));
    lemma_failure_stays(table, seq![first], done, normalized.skip(k + 1) + rest, e);
}

/// Parses the tokens with the automaton of the table. The stream is the start of the
/// input, the tokens with their line breaks normalized (see `normalized_token`), and the
/// end of the input. Before each token of it, the automaton reduces by the rule that its
/// state calls for, as long as there is one; then it moves on the token. The tree is the
/// node under the end of the input once the stream is consumed.
///
/// Every internal node of the tree is an instance of a rule of the table, and its leaves
/// are the last tokens of the normalized stream before the end of the input.
pub fn parse(table: &ParseTable, tokens: &[Token]) -> (res: Result<ParseTree, ParseFailure>)
    requires
        table.wf(),
    ensures
        res matches Ok(tree) ==> derived(tree.root, table.rules@),
        res matches Ok(tree) ==> exists|rest: Seq<Node>|
            frontier_of(rest) + frontier(tree.root) == seq![start_token_spec()] + normalized_prefix(
                table,
                stream_of(tokens@),
                tokens@.len() as int,
            ),
        (res == Err::<ParseTree, ParseFailure>(ParseFailure::CannotStart)) == (row_get(
            table.transitions@[START_STATE as int]@,
            terminal_ord_spec(TokenKind::ParsingStart),
        ) is None),
        res matches Err(ParseFailure::UnexpectedToken(t)) ==> exists|s: int|
            0 <= s < table.transitions@.len() && row_get(table.transitions@[s]@, terminal_ord_spec(t.kind)) is None
                && row_get(table.reductions@[s]@, terminal_ord_spec(t.kind)) is None,
        (res is Ok) == (parse_outcome(table, tokens@) is Ok),
        res matches Ok(tree) ==> node_view(tree.root) == parse_tree_view(table, tokens@),
        res matches Err(e) ==> parse_outcome(table, tokens@) == Err::<(), ParseFailure>(e),
{
    let start = start_token();
    let first = match transit(table, START_STATE, &Symbol::Terminal(start)) {
        Some(s) => s,
        None => {
            return Err(ParseFailure::CannotStart);
        },
    };
    let mut state_stack: Vec<State> = Vec::new();
    state_stack.push(first);
    let ghost init = seq![first];
    let ghost init_nodes = seq![NodeView::Leaf(start_token_spec())];
    let mut node_stack: Vec<Node> = Vec::new();
    node_stack.push(Node::Leaf(start));
    let ghost stream = stream_of(tokens@);
    proof {
        assert(frontier_of(node_stack@) =~= seq![start_token_spec()] + normalized_prefix(table, stream, 0)) by {
            lemma_frontier_push(Seq::empty(), Node::Leaf(start));
            assert(node_stack@ =~= Seq::<Node>::empty().push(Node::Leaf(start)));
        }
        assert(state_stack@ =~= init);
        assert(run_states(table, init, normalized_prefix(table, stream, 0)) == Ok::<Seq<State>, ParseFailure>(state_stack@));
        lemma_nodes_view_push(Seq::empty(), Node::Leaf(start));
        assert(nodes_view(node_stack@) =~= init_nodes);
    }
    let mut i: usize = 0;
    let mut finished = false;
    while !finished
        invariant
            table.wf(),
            row_get(table.transitions@[START_STATE as int]@, terminal_ord_spec(TokenKind::ParsingStart)) is Some,
            stream == stream_of(tokens@),
            i <= tokens@.len(),
            finished ==> i == tokens@.len(),
            node_stack@.len() == state_stack@.len(),
            state_stack@.len() >= 1,
            forall|j: int| 0 <= j < state_stack@.len() ==> #[trigger] state_stack@[j] < table.transitions@.len(),
            forall|j: int| 0 <= j < node_stack@.len() ==> derived(#[trigger] node_stack@[j], table.rules@),
            frontier_of(node_stack@) == seq![start_token_spec()] + normalized_prefix(
                table,
                stream,
                if finished {
                    i + 1
                } else {
                    i as int
                },
            ),
            finished ==> node_stack@[node_stack@.len() - 1] == Node::Leaf(end_token_spec()),
            move_on(table, START_STATE, Symbol::Terminal(start_token_spec())) == Some(first),
            init == seq![first],
            run_states(
                table,
                init,
                normalized_prefix(
                    table,
                    stream,
                    if finished {
                        i + 1
                    } else {
                        i as int
                    },
                ),
            ) == Ok::<Seq<State>, ParseFailure>(state_stack@),
            init_nodes == seq![NodeView::Leaf(start_token_spec())],
            run_nodes(
                table,
                init,
                init_nodes,
                normalized_prefix(
                    table,
                    stream,
                    if finished {
                        i + 1
                    } else {
                        i as int
                    },
                ),
            ) == nodes_view(node_stack@),
        decreases tokens@.len() - i + if finished {
            0int
        } else {
            1int
        },
    {
        let token = if i < tokens.len() {
            tokens[i]
        } else {
            end_token()
        };
        let next = if i < tokens.len() {
            if i + 1 < tokens.len() {
                Some(tokens[i + 1])
            } else {
                Some(end_token())
            }
        } else {
            None
        };
        proof {
            assert(token == stream[i as int]);
            assert(next == if i + 1 < stream.len() {
                Some(stream[i + 1])
            } else {
                None::<Token>
            });
        }
        let normalized = skip_or_insert_new_lines(table, token, next);
        let ghost done = seq![start_token_spec()] + normalized_prefix(table, stream, i as int);
        let ghost dn = normalized_prefix(table, stream, i as int);
        proof {
            assert(dn + normalized@.take(0) =~= dn);
            assert(normalized@.take(0) =~= Seq::<Token>::empty());
            assert(done + normalized@.take(0) =~= done);
        }
        let mut k: usize = 0;
        while k < normalized.len()
            invariant
                table.wf(),
                row_get(table.transitions@[START_STATE as int]@, terminal_ord_spec(TokenKind::ParsingStart)) is Some,
                node_stack@.len() == state_stack@.len(),
                state_stack@.len() >= 1,
                forall|j: int| 0 <= j < state_stack@.len() ==> #[trigger] state_stack@[j] < table.transitions@.len(),
                forall|j: int| 0 <= j < node_stack@.len() ==> derived(#[trigger] node_stack@[j], table.rules@),
                k <= normalized@.len(),
                frontier_of(node_stack@) == done + normalized@.take(k as int),
                k > 0 ==> node_stack@[node_stack@.len() - 1] == Node::Leaf(normalized@[k - 1]),
                move_on(table, START_STATE, Symbol::Terminal(start_token_spec())) == Some(first),
                init == seq![first],
                stream == stream_of(tokens@),
                i <= tokens@.len(),
                dn == normalized_prefix(table, stream, i as int),
                normalized@ == normalized_token(
                    table,
                    stream[i as int],
                    if i + 1 < stream.len() {
                        Some(stream[i + 1])
                    } else {
                        None
                    },
                ),
                run_states(table, init, dn + normalized@.take(k as int)) == Ok::<Seq<State>, ParseFailure>(state_stack@),
                run_nodes(table, init, init_nodes, dn + normalized@.take(k as int)) == nodes_view(node_stack@),
            decreases normalized@.len() - k,
        {
            let t = normalized[k];
            let mut fuel = MAX_REDUCTIONS;
            let ghost s0 = state_stack@;
            let ghost n0 = nodes_view(node_stack@);
            loop
                invariant
                    table.wf(),
                    row_get(table.transitions@[START_STATE as int]@, terminal_ord_spec(TokenKind::ParsingStart)) is Some,
                    node_stack@.len() == state_stack@.len(),
                    state_stack@.len() >= 1,
                    forall|j: int| 0 <= j < state_stack@.len() ==> #[trigger] state_stack@[j] < table.transitions@.len(),
                    forall|j: int| 0 <= j < node_stack@.len() ==> derived(#[trigger] node_stack@[j], table.rules@),
                    frontier_of(node_stack@) == done + normalized@.take(k as int),
                    move_on(table, START_STATE, Symbol::Terminal(start_token_spec())) == Some(first),
                    init == seq![first],
                    stream == stream_of(tokens@),
                    i <= tokens@.len(),
                    dn == normalized_prefix(table, stream, i as int),
                    normalized@ == normalized_token(
                        table,
                        stream[i as int],
                        if i + 1 < stream.len() {
                            Some(stream[i + 1])
                        } else {
                            None
                        },
                    ),
                    k < normalized@.len(),
                    t == normalized@[k as int],
                    run_states(table, init, dn + normalized@.take(k as int)) == Ok::<Seq<State>, ParseFailure>(s0),
                    fuel <= MAX_REDUCTIONS,
                    reduce_states(table, s0, t, MAX_REDUCTIONS as nat) == reduce_states(table, state_stack@, t, fuel as nat),
                    reduce_nodes(table, s0, n0, t, MAX_REDUCTIONS as nat) == reduce_nodes(
                        table,
                        state_stack@,
                        nodes_view(node_stack@),
                        t,
                        fuel as nat,
                    ),
                ensures
                    reduce_nodes(table, s0, n0, t, MAX_REDUCTIONS as nat) == nodes_view(node_stack@),
                    reduce_states(table, s0, t, MAX_REDUCTIONS as nat) == Ok::<Seq<State>, ParseFailure>(state_stack@),
                    node_stack@.len() == state_stack@.len(),
                    state_stack@.len() >= 1,
                    forall|j: int| 0 <= j < state_stack@.len() ==> #[trigger] state_stack@[j] < table.transitions@.len(),
                    forall|j: int| 0 <= j < node_stack@.len() ==> derived(#[trigger] node_stack@[j], table.rules@),
                    frontier_of(node_stack@) == done + normalized@.take(k as int),
                    row_get(table.reductions@[state_stack@[state_stack@.len() - 1] as int]@, terminal_ord_spec(t.kind)) is None,
                decreases fuel,
            {
                let top = state_stack[state_stack.len() - 1];
                let ghost cur = state_stack@;
                let production = match reduce(table, top, t) {
                    Some(p) => p,
                    None => {
                        proof {
                            assert(reduction_rule(table, cur.last(), t) is None);
                        }
                        break;
                    },
                };
                proof {
                    assert(reduction_rule(table, cur.last(), t) == Some(*production));
                }
                if fuel == 0 {
                    proof {
                        lemma_token_fails(table, tokens@, first, i as int, normalized@, k as int, s0, ParseFailure::TooManyReductions);
                    }
                    return Err(ParseFailure::TooManyReductions);
                }
                let ghost fuel_before = fuel;
                fuel = fuel - 1;
                let width = production.rhs.len();
                if width > node_stack.len() {
                    proof {
                        lemma_token_fails(table, tokens@, first, i as int, normalized@, k as int, s0, ParseFailure::StackUnderflow);
                    }
                    return Err(ParseFailure::StackUnderflow);
                }
                let new_size = node_stack.len() - width;
                let ghost before = node_stack@;
                let children = node_stack.split_off(new_size);
                state_stack.truncate(new_size);
                proof {
                    assert(state_stack@ =~= cur.take(cur.len() - production.rhs@.len()));
                }
                if state_stack.len() == 0 {
                    proof {
                        lemma_token_fails(table, tokens@, first, i as int, normalized@, k as int, s0, ParseFailure::EmptyStack);
                    }
                    return Err(ParseFailure::EmptyStack);
                }
                let lhs = production.lhs;
                let ghost kept = node_stack@;
                proof {
                    assert(before =~= kept + children@);
                    lemma_frontier_concat(kept, children@);
                    let r = choose|r: int|
                        0 <= r < table.rules@.len() && #[trigger] table.rules@[r] == *production;
                    assert(derived(Node::Internal { kind: lhs, children }, table.rules@)) by {
                        assert(table.rules@[r].lhs == lhs && table.rules@[r].rhs@.len() == children@.len());
                        assert forall|j: int| 0 <= j < children@.len() implies derived(#[trigger] children@[j], table.rules@) by {
                            assert(children@[j] == before[new_size + j]);
                        }
                    }
                    lemma_frontier_push(kept, Node::Internal { kind: lhs, children });
                    assert(frontier(Node::Internal { kind: lhs, children }) == frontier_of(children@));
                }
                node_stack.push(Node::Internal { kind: lhs, children });
                let below = state_stack[state_stack.len() - 1];
                let next_state = match transit(table, below, &Symbol::NonTerminal(lhs)) {
                    Some(s) => s,
                    None => {
                        proof {
                            lemma_token_fails(table, tokens@, first, i as int, normalized@, k as int, s0, ParseFailure::CannotTransit(lhs));
                        }
                        return Err(ParseFailure::CannotTransit(lhs));
                    },
                };
                let ghost kept_states = state_stack@;
                state_stack.push(next_state);
                proof {
                    assert(reduce_states(table, cur, t, fuel_before as nat) == reduce_states(table, kept_states.push(next_state), t, fuel as nat));
                    let k = new_size as int;
                    lemma_nodes_view_concat(kept, children@);
                    lemma_nodes_view_index(kept);
                    lemma_nodes_view_push(kept, Node::Internal { kind: lhs, children });
                    let nv = nodes_view(before);
                    assert(nodes_view(kept) =~= nv.take(k));
                    assert(nodes_view(children@) =~= nv.skip(k));
                    assert(node_view(Node::Internal { kind: lhs, children }) == NodeView::Internal(lhs, nodes_view(children@)));
                    assert(nodes_view(node_stack@) == nv.take(k).push(NodeView::Internal(lhs, nv.skip(k))));
                    assert(reduce_nodes(table, cur, nv, t, fuel_before as nat) == reduce_nodes(
                        table,
                        kept_states.push(next_state),
                        nodes_view(node_stack@),
                        t,
                        fuel as nat,
                    ));
                }
            }
            let top = state_stack[state_stack.len() - 1];
            let ghost kept = node_stack@;
            node_stack.push(Node::Leaf(t));
            proof {
                lemma_nodes_view_push(kept, Node::Leaf(t));
                lemma_frontier_push(kept, Node::Leaf(t));
                assert(normalized@.take(k + 1) =~= normalized@.take(k as int).push(t));
                assert(done + normalized@.take(k + 1) =~= done + normalized@.take(k as int) + seq![t]);
            }
            let ghost reduced = state_stack@;
            let next_state = match transit(table, top, &Symbol::Terminal(t)) {
                Some(s) => s,
                None => {
                    proof {
                        assert(0 <= top < table.transitions@.len());
                        lemma_token_fails(table, tokens@, first, i as int, normalized@, k as int, s0, ParseFailure::UnexpectedToken(t));
                    }
                    return Err(ParseFailure::UnexpectedToken(t));
                },
            };
            state_stack.push(next_state);
            proof {
                assert(shift_states(table, s0, t) == Ok::<Seq<State>, ParseFailure>(state_stack@));
                assert(shift_nodes(table, s0, n0, t) == nodes_view(node_stack@));
                assert((dn + normalized@.take(k + 1)).drop_last() =~= dn + normalized@.take(k as int));
                assert((dn + normalized@.take(k + 1)).last() == t);
            }
            k = k + 1;
        }
        proof {
            assert(normalized@.take(normalized@.len() as int) =~= normalized@);
            assert(normalized_prefix(table, stream, i + 1) == normalized_prefix(table, stream, i as int) + normalized@);
            assert(done + normalized@ =~= seq![start_token_spec()] + normalized_prefix(table, stream, i + 1));
            assert(dn + normalized@.take(normalized@.len() as int) =~= normalized_prefix(table, stream, i + 1));
            if i == tokens@.len() {
                assert(normalized@ =~= seq![end_token_spec()]);
            }
        }
        if i < tokens.len() {
            i = i + 1;
        } else {
            finished = true;
        }
    }
    let ghost full = node_stack@;
    node_stack.pop();
    let ghost without_end = node_stack@;
    let root = match node_stack.pop() {
        Some(node) => node,
        None => {
            proof {
                assert(state_stack@.len() < 2);
            }
            return Err(ParseFailure::EmptyStack);
        },
    };
    proof {
        let rest = node_stack@;
        assert(full =~= without_end.push(Node::Leaf(end_token_spec())));
        lemma_frontier_push(without_end, Node::Leaf(end_token_spec()));
        assert(without_end =~= rest.push(root));
        lemma_frontier_push(rest, root);
        let all = seq![start_token_spec()] + normalized_prefix(table, stream, tokens@.len() as int);
        assert(normalized_prefix(table, stream, tokens@.len() as int + 1) == normalized_prefix(
            table,
            stream,
            tokens@.len() as int,
        ) + seq![end_token_spec()]);
        assert(frontier_of(full) =~= all + seq![end_token_spec()]);
        let lhs = frontier_of(rest) + frontier(root);
        assert(frontier_of(full) == lhs + seq![end_token_spec()]);
        assert(lhs =~= frontier_of(full).subrange(0, frontier_of(full).len() - 1));
        assert(all =~= frontier_of(full).subrange(0, frontier_of(full).len() - 1));
        assert(derived(root, table.rules@)) by {
            assert(root == full[full.len() - 2]);
        }
        lemma_nodes_view_index(full);
        assert(nodes_view(full)[full.len() - 2] == node_view(root));
    }
    Ok(ParseTree::from(root))
}

} // verus!
