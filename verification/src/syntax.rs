//! Builds the syntax tree of a source file from its tokens, by recursive descent.
use crate::ast::{
    expression_wf, fields_wf, lemma_expression_wf_grows, lemma_fields_wf_grows, parameter_wf, statements_wf,
    AbstractSyntaxTree, Accessor, Block, CompilationUnit, ConstantDeclaration, Declaration,
    Expression, Field, Import, LiteralKind, Name, Parameter, Statement, StructBody,
    StructDeclaration, StructInitContent, TraitDeclaration, Type,
};
use crate::names::{path_view, Ident};
use crate::tokenizer::{blank, kinds_of, plain_tokens, tokenize, tokens_wf, Token, TokenKind, TokenizeError};
use vstd::prelude::*;
use vstd::string::StringSliceAdditionalSpecFns;

verus! {

/// Why a source file could not be read as a syntax tree.
#[derive(Clone, Copy, Debug, PartialEq, Eq, Structural)]
pub enum ParseError {
    Tokenize(TokenizeError),
    /// The token at the index does not fit where it stands.
    UnexpectedToken(usize),
    /// The tokens end where more are expected.
    UnexpectedEnd,
}

/// The declarations found so far.
pub struct Arenas {
    pub constants: Vec<ConstantDeclaration>,
    pub structs: Vec<StructDeclaration>,
    pub traits: Vec<TraitDeclaration>,
}

impl Arenas {
    /// Every index that an entry refers to lies in the arena of constants.
    pub open spec fn wf(&self) -> bool {
        let nc = self.constants@.len();
        &&& forall|i: int| 0 <= i < nc ==> expression_wf(#[trigger] self.constants@[i].value, nc)
        &&& forall|i: int| 0 <= i < self.structs@.len() ==> struct_wf(#[trigger] self.structs@[i], nc)
        &&& forall|i: int| 0 <= i < self.traits@.len() ==> fields_wf(#[trigger] self.traits@[i].required@, nc)
    }
}

/// Every index that a struct refers to lies in an arena of `nc` constants.
/// From `p` on, the token kinds are those of stray `;` and of constants bound to a literal,
/// `const name = literal`, and nothing else.
pub open spec fn literal_constants_from(ks: Seq<TokenKind>, p: int) -> bool
    decreases ks.len() - p,
{
    if p < 0 || p >= ks.len() {
        p == ks.len()
    } else if ks[p] == TokenKind::Separator(59) {
        literal_constants_from(ks, p + 1)
    } else {
        p + 4 <= ks.len() && ks[p] == TokenKind::Const && ks[p + 1] == TokenKind::Identifier && ks[p + 2] == TokenKind::Separator(
            61,
        ) && ks[p + 3] is Literal && literal_constants_from(ks, p + 4)
    }
}

/// Whether the text, taken as bytes, holds words, decimal integers, separators and white
/// space alone, and its tokens are stray `;` and constants bound to a literal.
pub open spec fn literal_constants_text(bytes: Seq<u8>) -> bool {
    plain_tokens(bytes, 0) matches Some(ts) && literal_constants_from(kinds_of(ts), 0) && ts.len() < usize::MAX - 5
}

/// The constants that the tokens from `p` on declare, where they are stray `;` and constants
/// bound to a literal: each as its name and the bytes of its literal.
pub open spec fn literal_constants(tokens: Seq<Token>, source: Seq<u8>, p: int) -> Seq<(Seq<u8>, Seq<u8>)>
    decreases tokens.len() - p,
{
    if p < 0 || p >= tokens.len() {
        Seq::empty()
    } else if tokens[p].kind == TokenKind::Separator(59) {
        literal_constants(tokens, source, p + 1)
    } else if p + 4 <= tokens.len() {
        seq![(
            source.subrange(tokens[p + 1].start as int, tokens[p + 1].end as int),
            source.subrange(tokens[p + 3].start as int, tokens[p + 3].end as int),
        )] + literal_constants(tokens, source, p + 4)
    } else {
        Seq::empty()
    }
}

/// The declarations are the constants of `pairs`, in order: the `i`-th declares the `i`-th
/// constant, whose name and literal are those of `pairs[i]`.
pub open spec fn declares_literal_constants(
    declarations: Seq<Declaration>,
    constants: Seq<ConstantDeclaration>,
    pairs: Seq<(Seq<u8>, Seq<u8>)>,
) -> bool {
    &&& declarations.len() == pairs.len()
    &&& constants.len() == pairs.len()
    &&& forall|i: int|
        0 <= i < pairs.len() ==> #[trigger] declarations[i] == Declaration::Constant(i as usize) && constants[i].name@ == pairs[i].0
            && (constants[i].value matches Expression::Literal { lexeme, .. } && lexeme@ == pairs[i].1)
}

pub open spec fn struct_wf(s: StructDeclaration, nc: nat) -> bool {
    &&& fields_wf(s.fields@, nc)
    &&& match s.body {
        Some(b) => forall|j: int| 0 <= j < b.attributes.len() ==> #[trigger] b.attributes@[j] < nc,
        None => true,
    }
}

/// A constant whose value lies in the arena may be added to it.
proof fn lemma_arenas_push_constant(a: &Arenas, b: &Arenas)
    requires
        a.wf(),
        b.constants@.len() == a.constants@.len() + 1,
        forall|i: int| 0 <= i < a.constants@.len() ==> #[trigger] b.constants@[i] == a.constants@[i],
        expression_wf(b.constants@[a.constants@.len() as int].value, a.constants@.len()),
        b.structs == a.structs,
        b.traits == a.traits,
    ensures
        b.wf(),
{
    let n = a.constants@.len();
    let m = b.constants@.len();
    assert forall|i: int| 0 <= i < m implies expression_wf(#[trigger] b.constants@[i].value, m) by {
        if i < n {
            assert(b.constants@[i] == a.constants@[i]);
            lemma_expression_wf_grows(a.constants@[i].value, n, m);
        } else {
            lemma_expression_wf_grows(b.constants@[i].value, n, m);
        }
    }
    assert forall|i: int| 0 <= i < b.structs@.len() implies struct_wf(#[trigger] b.structs@[i], m) by {
        assert(struct_wf(a.structs@[i], n));
        lemma_fields_wf_grows(a.structs@[i].fields@, n, m);
    }
    assert forall|i: int| 0 <= i < b.traits@.len() implies fields_wf(#[trigger] b.traits@[i].required@, m) by {
        lemma_fields_wf_grows(a.traits@[i].required@, n, m);
    }
}

/// The tokens of a source file, with the file.
pub struct SyntaxParser<'s> {
    pub source: &'s [u8],
    pub tokens: Vec<Token>,
}

/// The result of a parsing step: the value and the index of the first token after it.
pub type Step<T> = Result<(T, usize), ParseError>;

impl<'s> SyntaxParser<'s> {
    pub open spec fn wf(&self) -> bool {
        &&& tokens_wf(self.tokens@, self.source@)
        &&& self.tokens@.len() + 4 < usize::MAX
    }

    pub open spec fn sep_at(&self, pos: int, b: u8) -> bool {
        0 <= pos < self.tokens@.len() && self.tokens@[pos].kind == TokenKind::Separator(b)
    }

    pub open spec fn kind_at(&self, pos: int, kind: TokenKind) -> bool {
        0 <= pos < self.tokens@.len() && self.tokens@[pos].kind == kind
    }

    /// The bytes of the source that the token at `pos` spans.
    pub open spec fn lexeme_at(&self, pos: int) -> Seq<u8> {
        self.source@.subrange(self.tokens@[pos].start as int, self.tokens@[pos].end as int)
    }

    /// The error reported for the token at `pos`: that token, or the end of the tokens.
    pub open spec fn unexpected_at(&self, pos: usize) -> ParseError {
        if pos < self.tokens@.len() {
            ParseError::UnexpectedToken(pos)
        } else {
            ParseError::UnexpectedEnd
        }
    }

    /// Whether the identifier at `q` is followed by `.` and another identifier.
    pub open spec fn path_continues(&self, q: int) -> bool {
        self.sep_at(q + 1, 46) && self.kind_at(q + 2, TokenKind::Identifier)
    }

    /// The index of the first token after the path whose first identifier is at `q`.
    pub open spec fn path_end(&self, q: int) -> int
        decreases self.tokens@.len() - q,
    {
        if self.path_continues(q) {
            self.path_end(q + 2)
        } else {
            q + 1
        }
    }

    /// The identifiers of the path that starts at `q`, each as its bytes.
    pub open spec fn path_at(&self, q: int) -> Seq<Seq<u8>> {
        Seq::new(((self.path_end(q) - q + 1) / 2) as nat, |i: int| self.lexeme_at(q + 2 * i))
    }

    /// Whether the expression opens at the token `q`, as its first token shows: `(` may
    /// open any expression; a literal opens itself; `self`, `[` and `{` open `self`, a
    /// collection and a block; an identifier opens a name or a struct initialization whose
    /// path begins with it; chained accessors and field accesses open where their receiver
    /// does.
    pub open spec fn opens_at(&self, e: Expression, q: int) -> bool
        decreases e,
    {
        self.sep_at(q, 40) || match e {
            Expression::Literal { lexeme, .. } => self.literal_at(q) && lexeme@ == self.lexeme_at(q),
            Expression::SelfRef(_) => self.kind_at(q, TokenKind::SelfKeyword),
            Expression::ConstUse(n) => self.kind_at(q, TokenKind::Identifier) && n.path().len() > 0 && n.path()[0] == self.lexeme_at(q),
            Expression::StructInit { name, .. } => self.kind_at(q, TokenKind::Identifier) && name.path().len() > 0 && name.path()[0]
                == self.lexeme_at(q),
            Expression::Collection(_) => self.sep_at(q, 91),
            Expression::Block(_) => self.sep_at(q, 123),
            Expression::ChainingMethodInvocation { receiver, .. } => self.opens_at(*receiver, q),
            Expression::FieldAccess { receiver, .. } => self.opens_at(*receiver, q),
            Expression::Void => false,
        }
    }

    /// Whether the token at `q` is a `,` or a `;`.
    pub open spec fn separated_at(&self, q: int) -> bool {
        self.sep_at(q, 44) || self.sep_at(q, 59)
    }

    /// The expressions lie in order between `pos` and `upto`: the `i`-th spans the tokens
    /// from `starts[i]` up to `ends[i]` and opens at `starts[i]`; every token between them,
    /// before the first and after the last, is a `,` or a `;`.
    pub open spec fn laid_out(&self, pos: int, upto: int, es: Seq<Expression>, starts: Seq<int>, ends: Seq<int>) -> bool {
        &&& starts.len() == es.len() && ends.len() == es.len()
        &&& forall|i: int|
            0 <= i < es.len() ==> pos <= #[trigger] starts[i] < ends[i] <= upto && self.opens_at(es[i], starts[i])
        &&& forall|i: int| 0 <= i < es.len() - 1 ==> #[trigger] ends[i] <= starts[i + 1]
        &&& forall|q: int| pos <= q < upto && (es.len() == 0 || q < starts[0]) ==> #[trigger] self.separated_at(q)
        &&& forall|i: int, q: int|
            0 <= i < es.len() && #[trigger] ends[i] <= q < upto && (i + 1 == es.len() || q < starts[i + 1])
                ==> #[trigger] self.separated_at(q)
    }

    /// The expressions of a list that opens at `pos` and is closed by the token before
    /// `end` lie in order between them, with `,` and `;` alone around them.
    pub open spec fn list_laid_out(&self, pos: int, end: int, es: Seq<Expression>, starts: Seq<int>, ends: Seq<int>) -> bool {
        self.laid_out(pos, end - 1, es, starts, ends)
    }

    /// No expression opens at a `,` or a `;`.
    pub proof fn lemma_opens_past_separators(&self, e: Expression, q: int)
        requires
            self.opens_at(e, q),
        ensures
            !self.separated_at(q),
        decreases e,
    {
        match e {
            Expression::ChainingMethodInvocation { receiver, .. } => {
                if !self.sep_at(q, 40) {
                    self.lemma_opens_past_separators(*receiver, q);
                }
            },
            Expression::FieldAccess { receiver, .. } => {
                if !self.sep_at(q, 40) {
                    self.lemma_opens_past_separators(*receiver, q);
                }
            },
            _ => {},
        }
    }

    /// The expressions of a list come in the order of the tokens: the first opens at the
    /// first token after `pos` that is not a `,` or a `;`, and each next one at the first
    /// such token after the end of the one before it.
    pub proof fn lemma_list_in_token_order(&self, pos: int, end: int, es: Seq<Expression>, starts: Seq<int>, ends: Seq<int>)
        requires
            self.list_laid_out(pos, end, es, starts, ends),
        ensures
            forall|i: int| 0 <= i < es.len() ==> !self.separated_at(#[trigger] starts[i]),
            es.len() > 0 ==> forall|q: int| pos <= q < starts[0] ==> self.separated_at(q),
            forall|i: int, q: int|
                0 <= i < es.len() - 1 && #[trigger] ends[i] <= q < starts[i + 1] ==> #[trigger] self.separated_at(q),
            forall|i: int, k: int| 0 <= i < k < es.len() ==> #[trigger] starts[i] < #[trigger] starts[k],
    {
        assert forall|i: int| 0 <= i < es.len() implies !self.separated_at(#[trigger] starts[i]) by {
            self.lemma_opens_past_separators(es[i], starts[i]);
        }
        assert forall|i: int, k: int| 0 <= i < k < es.len() implies #[trigger] starts[i] < #[trigger] starts[k] by {
            self.lemma_starts_increase(pos, end, es, starts, ends, i, k);
        }
    }

    proof fn lemma_starts_increase(&self, pos: int, end: int, es: Seq<Expression>, starts: Seq<int>, ends: Seq<int>, i: int, k: int)
        requires
            self.list_laid_out(pos, end, es, starts, ends),
            0 <= i < k < es.len(),
        ensures
            starts[i] < starts[k],
        decreases k - i,
    {
        assert(starts[i] < ends[i] <= starts[i + 1]);
        if i + 1 < k {
            self.lemma_starts_increase(pos, end, es, starts, ends, i + 1, k);
        }
    }

    /// Whether the parameter opens at the token `q`: a labelled one with its label and `:`
    /// before its value, a plain one with its value.
    pub open spec fn parameter_opens_at(&self, prm: Parameter, q: int) -> bool {
        match prm {
            Parameter::Labelled { label, content } => self.kind_at(q, TokenKind::Identifier) && self.sep_at(q + 1, 58) && label@
                == self.lexeme_at(q) && self.opens_at(content, q + 2),
            Parameter::Plain(v) => self.opens_at(v, q),
        }
    }

    /// The parameters lie in order from `pos` up to `upto`: the `i`-th spans the tokens from
    /// `starts[i]` up to `ends[i]` and opens at `starts[i]`; the first opens at `pos`, and
    /// each is followed by the next one, by one `,` and the next one, or, for the last, by
    /// `upto` or by one `,` and `upto`.
    pub open spec fn parameters_laid_out(&self, pos: int, upto: int, ps: Seq<Parameter>, starts: Seq<int>, ends: Seq<int>) -> bool {
        &&& starts.len() == ps.len() && ends.len() == ps.len()
        &&& forall|i: int|
            0 <= i < ps.len() ==> pos <= #[trigger] starts[i] < ends[i] <= upto && self.parameter_opens_at(ps[i], starts[i])
        &&& ps.len() == 0 ==> upto == pos
        &&& ps.len() > 0 ==> starts[0] == pos
        &&& forall|i: int|
            0 <= i < ps.len() - 1 ==> #[trigger] starts[i + 1] == ends[i] || (starts[i + 1] == ends[i] + 1 && self.sep_at(ends[i], 44))
        &&& ps.len() > 0 ==> upto == ends[ps.len() - 1] || (upto == ends[ps.len() - 1] + 1 && self.sep_at(ends[ps.len() - 1], 44))
    }

    /// The parameters of a list closed by the token before `end` lie in order from `pos`.
    pub open spec fn parameter_list_laid_out(&self, pos: int, end: int, ps: Seq<Parameter>, starts: Seq<int>, ends: Seq<int>) -> bool {
        self.parameters_laid_out(pos, end - 1, ps, starts, ends)
    }

    /// Whether the field opens at the token `q`: its name, then `:`.
    pub open spec fn field_opens_at(&self, f: Field, q: int) -> bool {
        self.kind_at(q, TokenKind::Identifier) && f.name@ == self.lexeme_at(q) && self.sep_at(q + 1, 58)
    }

    /// The fields lie in order between `pos` and `upto`: the `i`-th spans the tokens from
    /// `starts[i]` up to `ends[i]` and opens at `starts[i]`; every token between them,
    /// before the first and after the last, is a `,`.
    pub open spec fn fields_laid_out(&self, pos: int, upto: int, fs: Seq<Field>, starts: Seq<int>, ends: Seq<int>) -> bool {
        &&& starts.len() == fs.len() && ends.len() == fs.len()
        &&& forall|i: int|
            0 <= i < fs.len() ==> pos <= #[trigger] starts[i] < ends[i] <= upto && self.field_opens_at(fs[i], starts[i])
        &&& forall|i: int| 0 <= i < fs.len() - 1 ==> #[trigger] ends[i] <= starts[i + 1]
        &&& forall|q: int| pos <= q < upto && (fs.len() == 0 || q < starts[0]) ==> #[trigger] self.sep_at(q, 44)
        &&& forall|i: int, q: int|
            0 <= i < fs.len() && #[trigger] ends[i] <= q < upto && (i + 1 == fs.len() || q < starts[i + 1])
                ==> #[trigger] self.sep_at(q, 44)
    }

    proof fn lemma_fields_comma(&self, pos: int, upto: int, fs: Seq<Field>, starts: Seq<int>, ends: Seq<int>)
        requires
            self.fields_laid_out(pos, upto, fs, starts, ends),
            self.sep_at(upto, 44),
        ensures
            self.fields_laid_out(pos, upto + 1, fs, starts, ends),
    {
    }

    proof fn lemma_fields_extend(
        &self,
        pos: int,
        upto: int,
        next: int,
        fs: Seq<Field>,
        starts: Seq<int>,
        ends: Seq<int>,
        f: Field,
    )
        requires
            self.fields_laid_out(pos, upto, fs, starts, ends),
            pos <= upto < next,
            self.field_opens_at(f, upto),
        ensures
            self.fields_laid_out(pos, next, fs.push(f), starts.push(upto), ends.push(next)),
    {
        let fs2 = fs.push(f);
        let s2 = starts.push(upto);
        let e2 = ends.push(next);
        assert forall|i: int| 0 <= i < fs2.len() implies pos <= #[trigger] s2[i] < e2[i] <= next && self.field_opens_at(
            fs2[i],
            s2[i],
        ) by {
            if i < fs.len() {
                assert(s2[i] == starts[i]);
                assert(starts[i] < ends[i] <= upto);
            }
        }
        assert forall|i: int| 0 <= i < fs2.len() - 1 implies #[trigger] e2[i] <= s2[i + 1] by {
            if i + 1 < fs.len() {
                assert(ends[i] <= starts[i + 1]);
            } else {
                assert(starts[i] < ends[i] <= upto);
            }
        }
        assert forall|i: int, k: int|
            0 <= i < fs2.len() && #[trigger] e2[i] <= k < next && (i + 1 == fs2.len() || k < s2[i + 1]) implies #[trigger] self.sep_at(
            k,
            44,
        ) by {
            if i + 1 < fs2.len() {
                assert(e2[i] == ends[i]);
                if i + 1 < fs.len() {
                    assert(s2[i + 1] == starts[i + 1]);
                }
            }
        }
    }

    /// The fields of a list closed by the token before `end` lie in order from `pos`.
    pub open spec fn field_list_laid_out(&self, pos: int, end: int, fs: Seq<Field>, starts: Seq<int>, ends: Seq<int>) -> bool {
        self.fields_laid_out(pos, end - 1, fs, starts, ends)
    }

    /// Whether the statement opens at the token `q`: a constant declaration with `const`,
    /// an expression as the expression does.
    pub open spec fn statement_opens_at(&self, st: Statement, q: int) -> bool {
        match st {
            Statement::ConstantDeclaration(_) => self.kind_at(q, TokenKind::Const),
            Statement::Expression(e) => self.opens_at(e, q),
        }
    }

    /// The statements lie in order between `pos` and `upto`: the `i`-th spans the tokens
    /// from `starts[i]` up to `ends[i]` and opens at `starts[i]`; every token between them,
    /// before the first and after the last, is a `,` or a `;`; the constants declared come in
    /// the order of the arena.
    pub open spec fn statements_laid_out(&self, pos: int, upto: int, sts: Seq<Statement>, starts: Seq<int>, ends: Seq<int>) -> bool {
        &&& starts.len() == sts.len() && ends.len() == sts.len()
        &&& forall|i: int|
            0 <= i < sts.len() ==> pos <= #[trigger] starts[i] < ends[i] <= upto && self.statement_opens_at(sts[i], starts[i])
        &&& forall|i: int| 0 <= i < sts.len() - 1 ==> #[trigger] ends[i] <= starts[i + 1]
        &&& forall|q: int| pos <= q < upto && (sts.len() == 0 || q < starts[0]) ==> #[trigger] self.separated_at(q)
        &&& forall|i: int, q: int|
            0 <= i < sts.len() && #[trigger] ends[i] <= q < upto && (i + 1 == sts.len() || q < starts[i + 1])
                ==> #[trigger] self.separated_at(q)
        &&& forall|i: int, k: int|
            0 <= i < k < sts.len() && #[trigger] sts[i] is ConstantDeclaration && #[trigger] sts[k] is ConstantDeclaration
                ==> sts[i]->ConstantDeclaration_0 < sts[k]->ConstantDeclaration_0
    }

    proof fn lemma_statements_separator(&self, pos: int, upto: int, sts: Seq<Statement>, starts: Seq<int>, ends: Seq<int>)
        requires
            self.statements_laid_out(pos, upto, sts, starts, ends),
            self.separated_at(upto),
        ensures
            self.statements_laid_out(pos, upto + 1, sts, starts, ends),
    {
    }

    proof fn lemma_statements_extend(
        &self,
        pos: int,
        upto: int,
        next: int,
        sts: Seq<Statement>,
        starts: Seq<int>,
        ends: Seq<int>,
        st: Statement,
        n: nat,
    )
        requires
            self.statements_laid_out(pos, upto, sts, starts, ends),
            pos <= upto < next,
            self.statement_opens_at(st, upto),
            statements_wf(sts, n),
            st matches Statement::ConstantDeclaration(c) ==> c >= n,
        ensures
            self.statements_laid_out(pos, next, sts.push(st), starts.push(upto), ends.push(next)),
    {
        let s1 = sts.push(st);
        let s2 = starts.push(upto);
        let e2 = ends.push(next);
        assert forall|i: int| 0 <= i < s1.len() implies pos <= #[trigger] s2[i] < e2[i] <= next && self.statement_opens_at(
            s1[i],
            s2[i],
        ) by {
            if i < sts.len() {
                assert(s2[i] == starts[i]);
                assert(starts[i] < ends[i] <= upto);
            }
        }
        assert forall|i: int| 0 <= i < s1.len() - 1 implies #[trigger] e2[i] <= s2[i + 1] by {
            if i + 1 < sts.len() {
                assert(ends[i] <= starts[i + 1]);
            } else {
                assert(starts[i] < ends[i] <= upto);
            }
        }
        assert forall|i: int, k: int|
            0 <= i < s1.len() && #[trigger] e2[i] <= k < next && (i + 1 == s1.len() || k < s2[i + 1]) implies #[trigger] self.separated_at(
            k,
        ) by {
            if i + 1 < s1.len() {
                assert(e2[i] == ends[i]);
                if i + 1 < sts.len() {
                    assert(s2[i + 1] == starts[i + 1]);
                }
            }
        }
        assert forall|i: int, k: int|
            0 <= i < k < s1.len() && #[trigger] s1[i] is ConstantDeclaration && #[trigger] s1[k] is ConstantDeclaration
            implies s1[i]->ConstantDeclaration_0 < s1[k]->ConstantDeclaration_0 by {
            assert(s1[i] == sts[i]);
            if k < sts.len() {
                assert(s1[k] == sts[k]);
            } else {
                assert(match sts[i] {
                    Statement::ConstantDeclaration(c) => c < n,
                    _ => true,
                });
            }
        }
    }

    /// The statements of a block closed by the token before `end` lie in order from `pos`.
    pub open spec fn block_laid_out(&self, pos: int, end: int, sts: Seq<Statement>, starts: Seq<int>, ends: Seq<int>) -> bool {
        self.statements_laid_out(pos, end - 1, sts, starts, ends)
    }

    /// Whether the token at `pos` is a literal.
    pub open spec fn literal_at(&self, pos: int) -> bool {
        0 <= pos < self.tokens@.len() && self.tokens@[pos].kind is Literal
    }

    /// Whether the token at `pos` can start no expression.
    pub open spec fn starts_no_expression(&self, pos: int) -> bool {
        0 <= pos < self.tokens@.len() && match self.tokens@[pos].kind {
            TokenKind::Literal(_) | TokenKind::SelfKeyword | TokenKind::Identifier => false,
            TokenKind::Separator(b) => b != 40 && b != 91 && b != 123,
            _ => true,
        }
    }

    /// Whether the token at `pos` can start a declaration of a file, or is a `;` between two.
    pub open spec fn starts_declaration(&self, pos: int) -> bool {
        0 <= pos < self.tokens@.len() && match self.tokens@[pos].kind {
            TokenKind::Const | TokenKind::Struct | TokenKind::Trait | TokenKind::Use => true,
            TokenKind::Separator(b) => b == 59,
            _ => false,
        }
    }

    /// Whether a declared type starts at `pos`: a path, or a path in brackets.
    pub open spec fn type_at(&self, pos: int) -> bool {
        if self.sep_at(pos, 91) {
            self.kind_at(pos + 1, TokenKind::Identifier) && self.sep_at(self.path_end(pos + 1), 93)
        } else {
            self.kind_at(pos, TokenKind::Identifier)
        }
    }

    /// Whether the token at `pos` is the separator `b`.
    fn is_sep(&self, pos: usize, b: u8) -> (r: bool)
        ensures
            r == self.sep_at(pos as int, b),
    {
        pos < self.tokens.len() && self.tokens[pos].kind == TokenKind::Separator(b)
    }

    /// Whether the token at `pos` has the kind.
    fn is_kind(&self, pos: usize, kind: TokenKind) -> (r: bool)
        ensures
            r == self.kind_at(pos as int, kind),
    {
        pos < self.tokens.len() && self.tokens[pos].kind == kind
    }

    /// The error for the token at `pos`.
    fn unexpected(&self, pos: usize) -> (e: ParseError)
        ensures
            e == self.unexpected_at(pos),
    {
        if pos < self.tokens.len() {
            ParseError::UnexpectedToken(pos)
        } else {
            ParseError::UnexpectedEnd
        }
    }

    /// Consumes the separator `b` at `pos`.
    fn expect_sep(&self, pos: usize, b: u8) -> (r: Step<()>)
        requires
            self.wf(),
        ensures
            r is Ok <==> self.sep_at(pos as int, b),
            r matches Ok((_, p)) ==> p == pos + 1,
            r matches Err(e) ==> e == self.unexpected_at(pos),
    {
        if self.is_sep(pos, b) {
            Ok(((), pos + 1))
        } else {
            Err(self.unexpected(pos))
        }
    }

    /// The bytes of the token at `pos`.
    fn lexeme(&self, pos: usize) -> (r: Vec<u8>)
        requires
            self.wf(),
            pos < self.tokens@.len(),
        ensures
            r@ == self.lexeme_at(pos as int),
    {
        let t = self.tokens[pos];
        assert(t.start < t.end <= self.source@.len());
        let mut out: Vec<u8> = Vec::new();
        let mut i = t.start;
        while i < t.end
            invariant
                t.start <= i <= t.end <= self.source@.len(),
                out@ == self.source@.subrange(t.start as int, i as int),
            decreases t.end - i,
        {
            out.push(self.source[i]);
            i = i + 1;
            assert(out@ =~= self.source@.subrange(t.start as int, i as int));
        }
        out
    }

    /// An identifier.
    fn parse_ident(&self, pos: usize) -> (r: Step<Ident>)
        requires
            self.wf(),
        ensures
            r is Ok <==> self.kind_at(pos as int, TokenKind::Identifier),
            r matches Ok((id, p)) ==> p == pos + 1 && pos < self.tokens@.len() && id@ == self.lexeme_at(pos as int),
            r matches Err(e) ==> e == self.unexpected_at(pos),
    {
        if self.is_kind(pos, TokenKind::Identifier) {
            Ok((self.lexeme(pos), pos + 1))
        } else {
            Err(self.unexpected(pos))
        }
    }

    /// Identifiers separated by `.`; a `.` not followed by an identifier ends the path and is
    /// not consumed.
    fn parse_path(&self, pos: usize) -> (r: Step<Vec<Ident>>)
        requires
            self.wf(),
        ensures
            r is Ok <==> self.kind_at(pos as int, TokenKind::Identifier),
            r matches Ok((path, p)) ==> pos < p <= self.tokens@.len() && path@.len() >= 1
                && p == self.path_end(pos as int) && path_view(path@) == self.path_at(pos as int),
            r matches Err(e) ==> e == self.unexpected_at(pos),
    {
        let (first, mut p) = self.parse_ident(pos)?;
        let mut path: Vec<Ident> = vec![first];
        while self.is_sep(p, 46) && self.is_kind(p + 1, TokenKind::Identifier)
            invariant
                self.wf(),
                pos < p <= self.tokens@.len(),
                path@.len() >= 1,
                p == pos + 2 * path@.len() - 1,
                self.path_end(p - 1) == self.path_end(pos as int),
                forall|i: int| 0 <= i < path@.len() ==> (#[trigger] path@[i])@ == self.lexeme_at(pos + 2 * i),
            decreases self.tokens@.len() - p,
        {
            let ghost before = path@;
            path.push(self.lexeme(p + 1));
            assert(forall|i: int| 0 <= i < before.len() ==> path@[i] == before[i]);
            p = p + 2;
        }
        assert(path_view(path@) =~= self.path_at(pos as int));
        Ok((path, p))
    }

    /// An expression with its chained accessors and field accesses.
    pub fn parse_expression(&self, pos: usize, arenas: &mut Arenas) -> (r: Step<Expression>)
        requires
            self.wf(),
            pos <= self.tokens@.len(),
            old(arenas).wf(),
        ensures
            r matches Ok((_, p)) ==> pos < p <= self.tokens@.len(),
            r matches Ok((e, _)) ==> expression_wf(e, final(arenas).constants@.len()),
            r matches Ok((e, _)) ==> self.opens_at(e, pos as int),
            final(arenas).wf(),
            final(arenas).constants@.len() >= old(arenas).constants@.len(),
            final(arenas).structs@.len() == old(arenas).structs@.len(),
            final(arenas).traits@.len() == old(arenas).traits@.len(),
            pos >= self.tokens@.len() ==> (r matches Err(ParseError::UnexpectedEnd)),
            self.starts_no_expression(pos as int) ==> (r matches Err(ParseError::UnexpectedToken(q)) && q == pos),
            self.literal_at(pos as int) && !self.path_continues(pos as int) ==> {
                &&& r matches Ok((Expression::Literal { kind, lexeme }, p)) && p == pos + 1
                    && self.tokens@[pos as int].kind == TokenKind::Literal(kind) && lexeme@ == self.lexeme_at(pos as int)
                &&& *final(arenas) == *old(arenas)
            },
        decreases self.tokens@.len() - pos, 2nat,
    {
        let (mut expr, mut p) = match self.parse_primary(pos, arenas) {
            Ok(step) => step,
            Err(e) => {
                return Err(e);
            },
        };
        let ghost p0 = p;
        let ghost e0 = expr;
        let ghost a0 = *arenas;
        while self.is_sep(p, 46) && self.is_kind(p + 1, TokenKind::Identifier)
            invariant
                self.wf(),
                pos < p <= self.tokens@.len(),
                !(self.sep_at(p0 as int, 46) && self.kind_at(p0 + 1, TokenKind::Identifier)) ==> p == p0 && expr == e0
                    && *arenas == a0,
                !self.starts_no_expression(pos as int),
                self.literal_at(pos as int) && !self.path_continues(pos as int) ==> p == pos + 1,
                arenas.wf(),
                expression_wf(expr, arenas.constants@.len()),
                self.opens_at(expr, pos as int),
                arenas.constants@.len() >= old(arenas).constants@.len(),
                arenas.structs@.len() == old(arenas).structs@.len(),
                arenas.traits@.len() == old(arenas).traits@.len(),
            decreases self.tokens@.len() - p,
        {
            let identifier = self.lexeme(p + 1);
            if self.is_sep(p + 2, 40) {
                let ghost n0 = arenas.constants@.len();
                let (value, next) = if self.is_sep(p + 3, 41) {
                    (None, p + 4)
                } else {
                    let (v, q) = self.parse_expression(p + 3, arenas)?;
                    let (_, q2) = self.expect_sep(q, 41)?;
                    (Some(v), q2)
                };
                let ghost n = arenas.constants@.len();
                proof {
                    lemma_expression_wf_grows(expr, n0, n);
                }
                let accessor = Accessor { identifier, value };
                expr = match expr {
                    Expression::ChainingMethodInvocation { receiver, accessors } => {
                        let mut accessors = accessors;
                        let ghost before = accessors@;
                        accessors.push(accessor);
                        proof {
                            assert forall|i: int| 0 <= i < accessors@.len() implies match #[trigger] accessors@[i].value {
                                Some(v) => expression_wf(v, n),
                                None => true,
                            } by {
                                if i < before.len() {
                                    assert(accessors@[i] == before[i]);
                                }
                            }
                        }
                        Expression::ChainingMethodInvocation { receiver, accessors }
                    },
                    other => Expression::ChainingMethodInvocation {
                        receiver: Box::new(other),
                        accessors: vec![accessor],
                    },
                };
                p = next;
            } else {
                expr = match expr {
                    Expression::FieldAccess { receiver, field_names } => {
                        let mut field_names = field_names;
                        field_names.push(identifier);
                        Expression::FieldAccess { receiver, field_names }
                    },
                    other => Expression::FieldAccess {
                        receiver: Box::new(other),
                        field_names: vec![identifier],
                    },
                };
                p = p + 2;
            }
        }
        Ok((expr, p))
    }

    /// A literal, `()`, a parenthesized expression, a collection, a block, `self`, a name or
    /// a struct initialization.
    fn parse_primary(&self, pos: usize, arenas: &mut Arenas) -> (r: Step<Expression>)
        requires
            self.wf(),
            pos <= self.tokens@.len(),
            old(arenas).wf(),
        ensures
            r matches Ok((_, p)) ==> pos < p <= self.tokens@.len(),
            r matches Ok((e, _)) ==> expression_wf(e, final(arenas).constants@.len()),
            r matches Ok((e, _)) ==> self.opens_at(e, pos as int),
            final(arenas).wf(),
            final(arenas).constants@.len() >= old(arenas).constants@.len(),
            final(arenas).structs@.len() == old(arenas).structs@.len(),
            final(arenas).traits@.len() == old(arenas).traits@.len(),
            pos >= self.tokens@.len() ==> (r matches Err(ParseError::UnexpectedEnd)),
            self.starts_no_expression(pos as int) ==> (r matches Err(ParseError::UnexpectedToken(q)) && q == pos),
            self.literal_at(pos as int) ==> {
                &&& r matches Ok((Expression::Literal { kind, lexeme }, p)) && p == pos + 1
                    && self.tokens@[pos as int].kind == TokenKind::Literal(kind) && lexeme@ == self.lexeme_at(pos as int)
                &&& *final(arenas) == *old(arenas)
            },
            self.kind_at(pos as int, TokenKind::SelfKeyword) ==> (r matches Ok((Expression::SelfRef(s), p)) && s == 0
                && p == pos + 1 && *final(arenas) == *old(arenas)),
            self.sep_at(pos as int, 40) && self.sep_at(pos + 1, 41) ==> (r matches Ok((Expression::Void, p)) && p == pos + 2
                && *final(arenas) == *old(arenas)),
            self.kind_at(pos as int, TokenKind::Identifier) && !self.sep_at(self.path_end(pos as int), 40)
                && !self.sep_at(self.path_end(pos as int), 123) ==> {
                &&& r matches Ok((Expression::ConstUse(n), p)) && p == self.path_end(pos as int)
                    && n.path() == self.path_at(pos as int) && n.scope == 0
                &&& *final(arenas) == *old(arenas)
            },
        decreases self.tokens@.len() - pos, 1nat,
    {
        if pos >= self.tokens.len() {
            return Err(ParseError::UnexpectedEnd);
        }
        let kind = self.tokens[pos].kind;
        match kind {
            TokenKind::Literal(literal_kind) => {
                Ok((Expression::Literal { kind: literal_kind, lexeme: self.lexeme(pos) }, pos + 1))
            },
            TokenKind::SelfKeyword => Ok((Expression::SelfRef(0), pos + 1)),
            TokenKind::Identifier => {
                let (moniker, mut p) = self.parse_path(pos)?;
                let name = Name { moniker, scope: 0 };
                let has_parameters = self.is_sep(p, 40);
                let mut parameters: Vec<Parameter> = Vec::new();
                if has_parameters {
                    let (params, q) = self.parse_parameters(p + 1, arenas)?;
                    parameters = params;
                    p = q;
                }
                let ghost n0 = arenas.constants@.len();
                if self.is_sep(p, 123) {
                    let (expressions, q) = self.parse_expression_list(p + 1, 125, arenas)?;
                    let ghost n = arenas.constants@.len();
                    proof {
                        assert forall|i: int| 0 <= i < parameters@.len() implies parameter_wf(#[trigger] parameters@[i], n) by {
                            assert(parameter_wf(parameters@[i], n0));
                            match parameters@[i] {
                                Parameter::Plain(v) => lemma_expression_wf_grows(v, n0, n),
                                Parameter::Labelled { content, .. } => lemma_expression_wf_grows(content, n0, n),
                            }
                        }
                    }
                    let content = StructInitContent { expressions, scope: 0 };
                    Ok((Expression::StructInit { name, parameters, init_content: Some(content) }, q))
                } else if has_parameters {
                    Ok((Expression::StructInit { name, parameters, init_content: None }, p))
                } else {
                    Ok((Expression::ConstUse(name), p))
                }
            },
            TokenKind::Separator(b) => {
                if b == 40 {
                    if self.is_sep(pos + 1, 41) {
                        Ok((Expression::Void, pos + 2))
                    } else {
                        let (e, q) = self.parse_expression(pos + 1, arenas)?;
                        let (_, q2) = self.expect_sep(q, 41)?;
                        Ok((e, q2))
                    }
                } else if b == 91 {
                    let (elements, q) = self.parse_expression_list(pos + 1, 93, arenas)?;
                    Ok((Expression::Collection(elements), q))
                } else if b == 123 {
                    let (block, q) = self.parse_block(pos + 1, arenas)?;
                    Ok((Expression::Block(block), q))
                } else {
                    Err(ParseError::UnexpectedToken(pos))
                }
            },
            _ => Err(ParseError::UnexpectedToken(pos)),
        }
    }

    /// Parameters up to and including `)`: `label: value` or plain values, separated by `,`.
    fn parse_parameters(&self, pos: usize, arenas: &mut Arenas) -> (r: Step<Vec<Parameter>>)
        requires
            self.wf(),
            pos <= self.tokens@.len(),
            old(arenas).wf(),
        ensures
            r matches Ok((_, p)) ==> pos < p <= self.tokens@.len(),
            r matches Ok((ps, _)) ==> forall|i: int|
                0 <= i < ps@.len() ==> parameter_wf(#[trigger] ps@[i], final(arenas).constants@.len()),
            final(arenas).wf(),
            final(arenas).constants@.len() >= old(arenas).constants@.len(),
            final(arenas).structs@.len() == old(arenas).structs@.len(),
            final(arenas).traits@.len() == old(arenas).traits@.len(),
            self.sep_at(pos as int, 41) ==> (r matches Ok((ps, p)) && ps@.len() == 0 && p == pos + 1
                && *final(arenas) == *old(arenas)),
            pos >= self.tokens@.len() ==> (r matches Err(ParseError::UnexpectedEnd)),
            r matches Ok((_, p)) ==> self.sep_at(p - 1, 41),
            r matches Ok((ps, p)) ==> exists|starts: Seq<int>, ends: Seq<int>|
                #[trigger] self.parameter_list_laid_out(pos as int, p as int, ps@, starts, ends),
        decreases self.tokens@.len() - pos, 4nat,
    {
        let mut parameters: Vec<Parameter> = Vec::new();
        let mut p = pos;
        let ghost mut starts: Seq<int> = Seq::empty();
        let ghost mut ends: Seq<int> = Seq::empty();
        while !self.is_sep(p, 41)
            invariant
                self.wf(),
                pos <= p <= self.tokens@.len(),
                self.parameters_laid_out(pos as int, p as int, parameters@, starts, ends),
                self.sep_at(pos as int, 41) ==> p == pos && parameters@.len() == 0 && *arenas == *old(arenas),
                arenas.wf(),
                forall|i: int| 0 <= i < parameters@.len() ==> parameter_wf(#[trigger] parameters@[i], arenas.constants@.len()),
                arenas.constants@.len() >= old(arenas).constants@.len(),
                arenas.structs@.len() == old(arenas).structs@.len(),
                arenas.traits@.len() == old(arenas).traits@.len(),
            decreases self.tokens@.len() - p,
        {
            if p >= self.tokens.len() {
                return Err(ParseError::UnexpectedEnd);
            }
            let ghost n0 = arenas.constants@.len();
            let ghost before = parameters@;
            let ghost s0 = starts;
            let ghost e0 = ends;
            let ghost start = p as int;
            proof {
                assert(self.parameters_laid_out(pos as int, p as int, before, s0, e0));
            }
            if self.is_kind(p, TokenKind::Identifier) && self.is_sep(p + 1, 58) {
                let label = self.lexeme(p);
                let (content, q) = self.parse_expression(p + 2, arenas)?;
                parameters.push(Parameter::Labelled { label, content });
                p = q;
            } else {
                let (value, q) = self.parse_expression(p, arenas)?;
                parameters.push(Parameter::Plain(value));
                p = q;
            }
            proof {
                starts = s0.push(start);
                ends = e0.push(p as int);
                assert(self.parameter_opens_at(parameters@[parameters@.len() - 1], start));
                assert forall|i: int| 0 <= i < parameters@.len() implies pos <= #[trigger] starts[i] < ends[i] <= p
                    && self.parameter_opens_at(parameters@[i], starts[i]) by {
                    if i < before.len() {
                        assert(parameters@[i] == before[i]);
                        assert(starts[i] == s0[i]);
                        assert(pos <= s0[i] < e0[i] <= start);
                    }
                }
                assert forall|i: int| 0 <= i < parameters@.len() - 1 implies #[trigger] starts[i + 1] == ends[i] || (starts[i + 1]
                    == ends[i] + 1 && self.sep_at(ends[i], 44)) by {
                    assert(e0[i] == ends[i]);
                    if i + 1 < before.len() {
                        assert(s0[i + 1] == starts[i + 1]);
                    }
                }
                assert(self.parameters_laid_out(pos as int, p as int, parameters@, starts, ends));
            }
            proof {
                let n = arenas.constants@.len();
                assert forall|i: int| 0 <= i < parameters@.len() implies parameter_wf(#[trigger] parameters@[i], n) by {
                    if i < before.len() {
                        assert(parameters@[i] == before[i]);
                        assert(parameter_wf(before[i], n0));
                        match before[i] {
                            Parameter::Plain(v) => lemma_expression_wf_grows(v, n0, n),
                            Parameter::Labelled { content, .. } => lemma_expression_wf_grows(content, n0, n),
                        }
                    }
                }
            }
            if self.is_sep(p, 44) {
                p = p + 1;
            }
        }
        let end = p + 1;
        proof {
            assert(self.parameter_list_laid_out(pos as int, end as int, parameters@, starts, ends));
            let rr: Step<Vec<Parameter>> = Ok((parameters, end));
            assert(rr matches Ok((ps, q)) ==> q == end);
            assert(rr matches Ok((ps, q)) ==> ps@ == parameters@);
        }
        Ok((parameters, end))
    }

    /// Expressions up to and including the separator `close`, separated by `,`, `;` or
    /// nothing.
    fn parse_expression_list(&self, pos: usize, close: u8, arenas: &mut Arenas) -> (r: Step<Vec<Expression>>)
        requires
            self.wf(),
            pos <= self.tokens@.len(),
            old(arenas).wf(),
        ensures
            r matches Ok((_, p)) ==> pos < p <= self.tokens@.len(),
            r matches Ok((es, _)) ==> forall|i: int|
                0 <= i < es@.len() ==> expression_wf(#[trigger] es@[i], final(arenas).constants@.len()),
            final(arenas).wf(),
            final(arenas).constants@.len() >= old(arenas).constants@.len(),
            final(arenas).structs@.len() == old(arenas).structs@.len(),
            final(arenas).traits@.len() == old(arenas).traits@.len(),
            self.sep_at(pos as int, close) ==> (r matches Ok((es, p)) && es@.len() == 0 && p == pos + 1
                && *final(arenas) == *old(arenas)),
            r matches Ok((_, p)) ==> self.sep_at(p - 1, close),
            r matches Ok((es, p)) ==> exists|starts: Seq<int>, ends: Seq<int>|
                #[trigger] self.list_laid_out(pos as int, p as int, es@, starts, ends),
        decreases self.tokens@.len() - pos, 4nat,
    {
        let mut elements: Vec<Expression> = Vec::new();
        let mut p = pos;
        let ghost mut starts: Seq<int> = Seq::empty();
        let ghost mut ends: Seq<int> = Seq::empty();
        while !self.is_sep(p, close)
            invariant
                self.wf(),
                pos <= p <= self.tokens@.len(),
                self.laid_out(pos as int, p as int, elements@, starts, ends),
                self.sep_at(pos as int, close) ==> p == pos && elements@.len() == 0 && *arenas == *old(arenas),
                arenas.wf(),
                forall|i: int| 0 <= i < elements@.len() ==> expression_wf(#[trigger] elements@[i], arenas.constants@.len()),
                arenas.constants@.len() >= old(arenas).constants@.len(),
                arenas.structs@.len() == old(arenas).structs@.len(),
                arenas.traits@.len() == old(arenas).traits@.len(),
            decreases self.tokens@.len() - p,
        {
            if self.is_sep(p, 44) || self.is_sep(p, 59) {
                proof {
                    assert(self.separated_at(p as int));
                }
                p = p + 1;
            } else {
                let ghost n0 = arenas.constants@.len();
                let ghost before = elements@;
                let (e, q) = self.parse_expression(p, arenas)?;
                elements.push(e);
                proof {
                    let s0 = starts;
                    let e0 = ends;
                    assert(self.laid_out(pos as int, p as int, before, s0, e0));
                    starts = starts.push(p as int);
                    ends = ends.push(q as int);
                    assert(elements@[elements@.len() - 1] == e);
                    assert forall|i: int| 0 <= i < elements@.len() implies pos <= #[trigger] starts[i] < ends[i] <= q
                        && self.opens_at(elements@[i], starts[i]) by {
                        if i < before.len() {
                            assert(elements@[i] == before[i]);
                            assert(starts[i] == s0[i]);
                        }
                    }
                    assert forall|i: int| 0 <= i < elements@.len() - 1 implies #[trigger] ends[i] <= starts[i + 1] by {
                        if i + 1 < before.len() {
                            assert(s0[i + 1] == starts[i + 1]);
                            assert(e0[i] == ends[i]);
                        } else {
                            assert(e0[i] == ends[i]);
                            assert(0 <= i < before.len());
                            assert(pos <= s0[i] < e0[i] <= p && self.opens_at(before[i], s0[i]));
                        }
                    }
                    assert forall|i: int, k: int|
                        0 <= i < elements@.len() && #[trigger] ends[i] <= k < q && (i + 1 == elements@.len() || k < starts[i + 1])
                        implies #[trigger] self.separated_at(k) by {
                        if i + 1 < elements@.len() {
                            assert(e0[i] == ends[i]);
                            if i + 1 < before.len() {
                                assert(s0[i + 1] == starts[i + 1]);
                            }
                        }
                    }
                    assert(self.laid_out(pos as int, q as int, elements@, starts, ends));
                }
                proof {
                    let n = arenas.constants@.len();
                    assert forall|i: int| 0 <= i < elements@.len() implies expression_wf(#[trigger] elements@[i], n) by {
                        if i < before.len() {
                            assert(elements@[i] == before[i]);
                            lemma_expression_wf_grows(before[i], n0, n);
                        }
                    }
                }
                p = q;
            }
        }
        proof {
            assert(self.sep_at(p as int, close));
        }
        let end = p + 1;
        proof {
            assert(self.list_laid_out(pos as int, end as int, elements@, starts, ends));
            let rr: Step<Vec<Expression>> = Ok((elements, end));
            assert(rr matches Ok((es, q)) ==> q == end);
            assert(rr matches Ok((es, q)) ==> es@ == elements@);
            assert(rr matches Ok((es, q)) ==> exists|xs: Seq<int>, ys: Seq<int>|
                #[trigger] self.list_laid_out(pos as int, q as int, es@, xs, ys));
        }
        Ok((elements, end))
    }

    /// The statements of a block, up to and including `}`.
    fn parse_block(&self, pos: usize, arenas: &mut Arenas) -> (r: Step<Block>)
        requires
            self.wf(),
            pos <= self.tokens@.len(),
            old(arenas).wf(),
        ensures
            r matches Ok((_, p)) ==> pos < p <= self.tokens@.len(),
            r matches Ok((b, _)) ==> expression_wf(Expression::Block(b), final(arenas).constants@.len()),
            final(arenas).wf(),
            final(arenas).constants@.len() >= old(arenas).constants@.len(),
            final(arenas).structs@.len() == old(arenas).structs@.len(),
            final(arenas).traits@.len() == old(arenas).traits@.len(),
            self.sep_at(pos as int, 125) ==> (r matches Ok((b, p)) && b.statements@.len() == 0 && b.scope == 0
                && p == pos + 1 && *final(arenas) == *old(arenas)),
            r matches Ok((_, p)) ==> self.sep_at(p - 1, 125),
            r matches Ok((b, p)) ==> exists|starts: Seq<int>, ends: Seq<int>|
                #[trigger] self.block_laid_out(pos as int, p as int, b.statements@, starts, ends),
        decreases self.tokens@.len() - pos, 4nat,
    {
        let mut statements: Vec<Statement> = Vec::new();
        let mut p = pos;
        let ghost mut starts: Seq<int> = Seq::empty();
        let ghost mut ends: Seq<int> = Seq::empty();
        while !self.is_sep(p, 125)
            invariant
                self.wf(),
                pos <= p <= self.tokens@.len(),
                self.statements_laid_out(pos as int, p as int, statements@, starts, ends),
                self.sep_at(pos as int, 125) ==> p == pos && statements@.len() == 0 && *arenas == *old(arenas),
                arenas.wf(),
                statements_wf(statements@, arenas.constants@.len()),
                forall|i: int|
                    0 <= i < statements@.len() ==> match #[trigger] statements@[i] {
                        Statement::Expression(e) => expression_wf(e, arenas.constants@.len()),
                        _ => true,
                    },
                arenas.constants@.len() >= old(arenas).constants@.len(),
                arenas.structs@.len() == old(arenas).structs@.len(),
                arenas.traits@.len() == old(arenas).traits@.len(),
            decreases self.tokens@.len() - p,
        {
            if self.is_sep(p, 44) || self.is_sep(p, 59) {
                proof {
                    self.lemma_statements_separator(pos as int, p as int, statements@, starts, ends);
                }
                p = p + 1;
            } else {
                let ghost n0 = arenas.constants@.len();
                let ghost before = statements@;
                let ghost s0 = starts;
                let ghost e0 = ends;
                let ghost start = p as int;
                proof {
                    assert(self.statements_laid_out(pos as int, p as int, before, s0, e0));
                }
                if self.is_kind(p, TokenKind::Const) {
                    let (index, q) = self.parse_constant(p, arenas)?;
                    statements.push(Statement::ConstantDeclaration(index));
                    p = q;
                } else {
                    let (e, q) = self.parse_expression(p, arenas)?;
                    statements.push(Statement::Expression(e));
                    p = q;
                }
                proof {
                    assert(statements@ == before.push(statements@.last()));
                    starts = s0.push(start);
                    ends = e0.push(p as int);
                    self.lemma_statements_extend(pos as int, start, p as int, before, s0, e0, statements@.last(), n0);
                    let n = arenas.constants@.len();
                    assert forall|i: int| 0 <= i < statements@.len() implies match #[trigger] statements@[i] {
                        Statement::ConstantDeclaration(c) => c < n,
                        _ => true,
                    } by {
                        if i < before.len() {
                            assert(statements@[i] == before[i]);
                        }
                    }
                    assert forall|i: int| 0 <= i < statements@.len() implies match #[trigger] statements@[i] {
                        Statement::Expression(e) => expression_wf(e, n),
                        _ => true,
                    } by {
                        if i < before.len() {
                            assert(statements@[i] == before[i]);
                            match before[i] {
                                Statement::Expression(e) => lemma_expression_wf_grows(e, n0, n),
                                _ => {},
                            }
                        }
                    }
                }
            }
        }
        let end = p + 1;
        proof {
            assert(self.sep_at(p as int, 125));
            assert(self.block_laid_out(pos as int, end as int, statements@, starts, ends));
        }
        let block = Block { statements, scope: 0 };
        proof {
            assert(block.statements@ == statements@);
            let rr: Step<Block> = Ok((block, end));
            assert(rr matches Ok((b, q)) ==> q == end);
            assert(rr matches Ok((b, q)) ==> b.statements@ == statements@);
        }
        Ok((block, end))
    }

    /// `const name = value`; the constant goes into the arena and its index is returned.
    fn parse_constant(&self, pos: usize, arenas: &mut Arenas) -> (r: Step<usize>)
        requires
            self.wf(),
            pos <= self.tokens@.len(),
            old(arenas).wf(),
        ensures
            r matches Ok((i, p)) ==> pos < p <= self.tokens@.len() && i < final(arenas).constants@.len(),
            r matches Ok((i, _)) ==> i >= old(arenas).constants@.len(),
            final(arenas).wf(),
            final(arenas).constants@.len() >= old(arenas).constants@.len(),
            final(arenas).structs@.len() == old(arenas).structs@.len(),
            final(arenas).traits@.len() == old(arenas).traits@.len(),
            !self.kind_at(pos as int, TokenKind::Const) ==> r == Err::<(usize, usize), ParseError>(self.unexpected_at(pos)),
            self.kind_at(pos as int, TokenKind::Const) && !self.kind_at(pos + 1, TokenKind::Identifier)
                ==> r == Err::<(usize, usize), ParseError>(self.unexpected_at((pos + 1) as usize)),
            r matches Ok((i, _)) ==> i + 1 == final(arenas).constants@.len()
                && final(arenas).constants@[i as int].name@ == self.lexeme_at(pos + 1) && self.sep_at(pos + 2, 61),
            self.kind_at(pos as int, TokenKind::Const) && self.kind_at(pos + 1, TokenKind::Identifier)
                && self.sep_at(pos + 2, 61) && self.literal_at(pos + 3) && !self.path_continues(pos + 3) ==> {
                &&& r matches Ok((i, p)) && i == old(arenas).constants@.len() && p == pos + 4
                &&& final(arenas).constants@.len() == old(arenas).constants@.len() + 1
                &&& final(arenas).constants@.drop_last() == old(arenas).constants@
                &&& final(arenas).structs == old(arenas).structs && final(arenas).traits == old(arenas).traits
                &&& final(arenas).constants@[old(arenas).constants@.len() as int].value matches Expression::Literal { lexeme, .. }
                    && lexeme@ == self.lexeme_at(pos + 3)
            },
        decreases self.tokens@.len() - pos, 3nat,
    {
        if !self.is_kind(pos, TokenKind::Const) {
            return Err(self.unexpected(pos));
        }
        let (name, p) = match self.parse_ident(pos + 1) {
            Ok(step) => step,
            Err(e) => {
                return Err(e);
            },
        };
        let (_, p) = self.expect_sep(p, 61)?;
        let (value, p) = self.parse_expression(p, arenas)?;
        let index = arenas.constants.len();
        let ghost before = *arenas;
        arenas.constants.push(ConstantDeclaration { name, value });
        proof {
            lemma_arenas_push_constant(&before, arenas);
        }
        Ok((index, p))
    }

    /// The declared type of a field: a path, or a path in brackets for a collection.
    fn parse_type(&self, pos: usize) -> (r: Step<Type>)
        requires
            self.wf(),
        ensures
            r is Ok <==> self.type_at(pos as int),
            r matches Ok((_, p)) ==> pos < p <= self.tokens@.len(),
            r matches Ok((t, p)) ==> t.is_collection == self.sep_at(pos as int, 91) && t.name.scope == 0
                && if t.is_collection {
                    t.name.path() == self.path_at(pos + 1) && p == self.path_end(pos + 1) + 1
                } else {
                    t.name.path() == self.path_at(pos as int) && p == self.path_end(pos as int)
                },
    {
        if self.is_sep(pos, 91) {
            let (moniker, p) = self.parse_path(pos + 1)?;
            let (_, p) = self.expect_sep(p, 93)?;
            Ok((Type { name: Name { moniker, scope: 0 }, is_collection: true }, p))
        } else {
            let (moniker, p) = self.parse_path(pos)?;
            Ok((Type { name: Name { moniker, scope: 0 }, is_collection: false }, p))
        }
    }

    /// Fields up to and including `)`: `name: Type` or `name: Type = default`, separated by
    /// `,`.
    #[verifier::rlimit(40)]
    fn parse_fields(&self, pos: usize, arenas: &mut Arenas) -> (r: Step<Vec<Field>>)
        requires
            self.wf(),
            pos <= self.tokens@.len(),
            old(arenas).wf(),
        ensures
            r matches Ok((_, p)) ==> pos < p <= self.tokens@.len(),
            r matches Ok((fs, _)) ==> fields_wf(fs@, final(arenas).constants@.len()),
            final(arenas).wf(),
            final(arenas).constants@.len() >= old(arenas).constants@.len(),
            final(arenas).structs@.len() == old(arenas).structs@.len(),
            final(arenas).traits@.len() == old(arenas).traits@.len(),
            self.sep_at(pos as int, 41) ==> (r matches Ok((fs, p)) && fs@.len() == 0 && p == pos + 1
                && *final(arenas) == *old(arenas)),
            r matches Ok((_, p)) ==> self.sep_at(p - 1, 41),
            r matches Ok((fs, p)) ==> exists|starts: Seq<int>, ends: Seq<int>|
                #[trigger] self.field_list_laid_out(pos as int, p as int, fs@, starts, ends),
    {
        let mut fields: Vec<Field> = Vec::new();
        let mut p = pos;
        let ghost mut starts: Seq<int> = Seq::empty();
        let ghost mut ends: Seq<int> = Seq::empty();
        while !self.is_sep(p, 41)
            invariant
                self.wf(),
                pos <= p <= self.tokens@.len(),
                self.fields_laid_out(pos as int, p as int, fields@, starts, ends),
                self.sep_at(pos as int, 41) ==> p == pos && fields@.len() == 0 && *arenas == *old(arenas),
                arenas.wf(),
                fields_wf(fields@, arenas.constants@.len()),
                arenas.constants@.len() >= old(arenas).constants@.len(),
                arenas.structs@.len() == old(arenas).structs@.len(),
                arenas.traits@.len() == old(arenas).traits@.len(),
            decreases self.tokens@.len() - p,
        {
            if self.is_sep(p, 44) {
                proof {
                    self.lemma_fields_comma(pos as int, p as int, fields@, starts, ends);
                }
                p = p + 1;
            } else {
                let ghost s0 = starts;
                let ghost e0 = ends;
                let ghost start = p as int;
                let ghost fields_before = fields@;
                proof {
                    assert(self.fields_laid_out(pos as int, p as int, fields_before, s0, e0));
                }
                let (name, q) = self.parse_ident(p)?;
                let (_, q) = self.expect_sep(q, 58)?;
                let (field_type, q) = self.parse_type(q)?;
                let ghost n0 = arenas.constants@.len();
                let ghost before = fields@;
                if self.is_sep(q, 61) {
                    let (value, q2) = self.parse_expression(q + 1, arenas)?;
                    fields.push(Field { name, field_type, default_value: Some(value) });
                    p = q2;
                } else {
                    fields.push(Field { name, field_type, default_value: None });
                    p = q;
                }
                proof {
                    starts = s0.push(start);
                    ends = e0.push(p as int);
                    assert(fields@ == fields_before.push(fields@.last()));
                    self.lemma_fields_extend(pos as int, start, p as int, fields_before, s0, e0, fields@.last());
                    let n = arenas.constants@.len();
                    lemma_fields_wf_grows(before, n0, n);
                    assert forall|i: int| 0 <= i < fields@.len() implies match #[trigger] fields@[i].default_value {
                        Some(v) => expression_wf(v, n),
                        None => true,
                    } by {
                        if i < before.len() {
                            assert(fields@[i] == before[i]);
                        }
                    }
                }
            }
        }
        let end = p + 1;
        proof {
            assert(self.sep_at(p as int, 41));
            assert(self.field_list_laid_out(pos as int, end as int, fields@, starts, ends));
            let rr: Step<Vec<Field>> = Ok((fields, end));
            assert(rr matches Ok((fs, q)) ==> q == end);
            assert(rr matches Ok((fs, q)) ==> fs@ == fields@);
        }
        Ok((fields, end))
    }

    /// `struct Name`, with fields in parentheses and a body of constants in braces, both
    /// optional; the struct goes into the arena and its index is returned.
    fn parse_struct(&self, pos: usize, arenas: &mut Arenas) -> (r: Step<usize>)
        requires
            self.wf(),
            pos <= self.tokens@.len(),
            old(arenas).wf(),
        ensures
            r matches Ok((i, p)) ==> pos < p <= self.tokens@.len() && i < final(arenas).structs@.len(),
            final(arenas).wf(),
            final(arenas).constants@.len() >= old(arenas).constants@.len(),
            final(arenas).structs@.len() >= old(arenas).structs@.len(),
            final(arenas).traits@.len() == old(arenas).traits@.len(),
            !self.kind_at(pos as int, TokenKind::Struct) ==> r == Err::<(usize, usize), ParseError>(self.unexpected_at(pos)),
            self.kind_at(pos as int, TokenKind::Struct) && !self.kind_at(pos + 1, TokenKind::Identifier)
                ==> r == Err::<(usize, usize), ParseError>(self.unexpected_at((pos + 1) as usize)),
            r matches Ok((i, _)) ==> i == old(arenas).structs@.len() && final(arenas).structs@.len() == i + 1
                && final(arenas).structs@[i as int].name@ == self.lexeme_at(pos + 1),
            self.kind_at(pos as int, TokenKind::Struct) && self.kind_at(pos + 1, TokenKind::Identifier)
                && !self.sep_at(pos + 2, 40) && !self.sep_at(pos + 2, 123) ==> {
                &&& r matches Ok((i, p)) && p == pos + 2
                &&& final(arenas).structs@.len() == old(arenas).structs@.len() + 1
                &&& final(arenas).structs@[old(arenas).structs@.len() as int].fields@.len() == 0
                &&& final(arenas).structs@[old(arenas).structs@.len() as int].body is None
            },
    {
        if !self.is_kind(pos, TokenKind::Struct) {
            return Err(self.unexpected(pos));
        }
        let (name, mut p) = match self.parse_ident(pos + 1) {
            Ok(step) => step,
            Err(e) => {
                return Err(e);
            },
        };
        let mut fields: Vec<Field> = Vec::new();
        if self.is_sep(p, 40) {
            let (f, q) = self.parse_fields(p + 1, arenas)?;
            fields = f;
            p = q;
        }
        let ghost n_fields = arenas.constants@.len();
        let mut body: Option<StructBody> = None;
        if self.is_sep(p, 123) {
            let mut attributes: Vec<usize> = Vec::new();
            let mut q = p + 1;
            while !self.is_sep(q, 125)
                invariant
                    self.wf(),
                    pos < q <= self.tokens@.len(),
                    self.kind_at(pos as int, TokenKind::Struct) && self.kind_at(pos + 1, TokenKind::Identifier),
                    self.sep_at(pos + 2, 40) || self.sep_at(pos + 2, 123),
                    arenas.wf(),
                    forall|j: int| 0 <= j < attributes@.len() ==> #[trigger] attributes@[j] < arenas.constants@.len(),
                    arenas.constants@.len() >= n_fields,
                    n_fields >= old(arenas).constants@.len(),
                    arenas.structs@.len() == old(arenas).structs@.len(),
                    arenas.traits@.len() == old(arenas).traits@.len(),
                decreases self.tokens@.len() - q,
            {
                if self.is_sep(q, 59) || self.is_sep(q, 44) {
                    q = q + 1;
                } else {
                    let (index, q2) = self.parse_constant(q, arenas)?;
                    attributes.push(index);
                    q = q2;
                }
            }
            body = Some(StructBody { attributes, scope: 0 });
            p = q + 1;
        }
        proof {
            lemma_fields_wf_grows(fields@, n_fields, arenas.constants@.len());
        }
        let index = arenas.structs.len();
        let ghost before = *arenas;
        arenas.structs.push(StructDeclaration { name, fields, body });
        proof {
            assert forall|i: int| 0 <= i < arenas.structs@.len() implies struct_wf(#[trigger] arenas.structs@[i], arenas.constants@.len()) by {
                if i < before.structs@.len() {
                    assert(arenas.structs@[i] == before.structs@[i]);
                }
            }
        }
        Ok((index, p))
    }

    /// `trait Name`, with required fields in parentheses, optional; the trait goes into the
    /// arena and its index is returned.
    fn parse_trait(&self, pos: usize, arenas: &mut Arenas) -> (r: Step<usize>)
        requires
            self.wf(),
            pos <= self.tokens@.len(),
            old(arenas).wf(),
        ensures
            r matches Ok((i, p)) ==> pos < p <= self.tokens@.len() && i < final(arenas).traits@.len(),
            final(arenas).wf(),
            final(arenas).constants@.len() >= old(arenas).constants@.len(),
            final(arenas).structs@.len() == old(arenas).structs@.len(),
            final(arenas).traits@.len() >= old(arenas).traits@.len(),
            !self.kind_at(pos as int, TokenKind::Trait) ==> r == Err::<(usize, usize), ParseError>(self.unexpected_at(pos)),
            self.kind_at(pos as int, TokenKind::Trait) && !self.kind_at(pos + 1, TokenKind::Identifier)
                ==> r == Err::<(usize, usize), ParseError>(self.unexpected_at((pos + 1) as usize)),
            r matches Ok((i, _)) ==> i == old(arenas).traits@.len() && final(arenas).traits@.len() == i + 1
                && final(arenas).traits@[i as int].name@ == self.lexeme_at(pos + 1),
            self.kind_at(pos as int, TokenKind::Trait) && self.kind_at(pos + 1, TokenKind::Identifier)
                && !self.sep_at(pos + 2, 40) ==> {
                &&& r matches Ok((i, p)) && p == pos + 2
                &&& final(arenas).traits@.len() == old(arenas).traits@.len() + 1
                &&& final(arenas).traits@[old(arenas).traits@.len() as int].required@.len() == 0
                &&& *final(arenas) == (Arenas { traits: final(arenas).traits, ..*old(arenas) })
            },
    {
        if !self.is_kind(pos, TokenKind::Trait) {
            return Err(self.unexpected(pos));
        }
        let (name, mut p) = match self.parse_ident(pos + 1) {
            Ok(step) => step,
            Err(e) => {
                return Err(e);
            },
        };
        let mut required: Vec<Field> = Vec::new();
        if self.is_sep(p, 40) {
            let (f, q) = self.parse_fields(p + 1, arenas)?;
            required = f;
            p = q;
        }
        let index = arenas.traits.len();
        let ghost before = *arenas;
        arenas.traits.push(TraitDeclaration { name, required });
        proof {
            assert forall|i: int| 0 <= i < arenas.traits@.len() implies fields_wf(#[trigger] arenas.traits@[i].required@, arenas.constants@.len()) by {
                if i < before.traits@.len() {
                    assert(arenas.traits@[i] == before.traits@[i]);
                }
            }
        }
        Ok((index, p))
    }

    /// `use path`, `use path.*` or `use path.{ path, ... }`.
    fn parse_import(&self, pos: usize) -> (r: Step<Import>)
        requires
            self.wf(),
        ensures
            r matches Ok((_, p)) ==> pos < p <= self.tokens@.len(),
            !self.kind_at(pos as int, TokenKind::Use) ==> r == Err::<(Import, usize), ParseError>(self.unexpected_at(pos)),
            self.kind_at(pos as int, TokenKind::Use) && !self.kind_at(pos + 1, TokenKind::Identifier)
                ==> r == Err::<(Import, usize), ParseError>(self.unexpected_at((pos + 1) as usize)),
            self.kind_at(pos as int, TokenKind::Use) && self.kind_at(pos + 1, TokenKind::Identifier) ==> ({
                let q = self.path_end(pos + 1);
                if self.sep_at(q, 46) && self.sep_at(q + 1, 42) {
                    r matches Ok((Import::Wildcard(prefix), p)) && p == q + 2
                        && path_view(prefix@) == self.path_at(pos + 1)
                } else if self.sep_at(q, 46) && self.sep_at(q + 1, 123) {
                    self.sep_at(q + 2, 125) ==> (r matches Ok((Import::Multiple { prefix, suffices }, p))
                        && p == q + 3 && suffices@.len() == 0 && path_view(prefix@) == self.path_at(pos + 1))
                } else {
                    r matches Ok((Import::Single(prefix), p)) && p == q
                        && path_view(prefix@) == self.path_at(pos + 1)
                }
            }),
    {
        if !self.is_kind(pos, TokenKind::Use) {
            return Err(self.unexpected(pos));
        }
        let (prefix, p) = match self.parse_path(pos + 1) {
            Ok(step) => step,
            Err(e) => {
                return Err(e);
            },
        };
        if self.is_sep(p, 46) && self.is_sep(p + 1, 42) {
            Ok((Import::Wildcard(prefix), p + 2))
        } else if self.is_sep(p, 46) && self.is_sep(p + 1, 123) {
            let mut suffices: Vec<Vec<Ident>> = Vec::new();
            let mut q = p + 2;
            while !self.is_sep(q, 125)
                invariant
                    self.wf(),
                    pos < q <= self.tokens@.len(),
                    self.kind_at(pos as int, TokenKind::Use) && self.kind_at(pos + 1, TokenKind::Identifier),
                    p == self.path_end(pos + 1) && self.sep_at(p as int, 46) && self.sep_at(p + 1, 123),
                    self.sep_at(p + 2, 125) ==> q == p + 2 && suffices@.len() == 0,
                decreases self.tokens@.len() - q,
            {
                if self.is_sep(q, 44) {
                    q = q + 1;
                } else {
                    let (suffix, q2) = self.parse_path(q)?;
                    suffices.push(suffix);
                    q = q2;
                }
            }
            Ok((Import::Multiple { prefix, suffices }, q + 1))
        } else {
            Ok((Import::Single(prefix), p))
        }
    }

    /// The declarations of the whole file.
    pub fn parse_unit(&self) -> (r: Result<AbstractSyntaxTree, ParseError>)
        requires
            self.wf(),
        ensures
            r matches Ok(t) ==> t.wf(),
            self.tokens@.len() == 0 ==> (r matches Ok(t) && t.compilation_unit.declarations@.len() == 0
                && t.constants@.len() == 0 && t.structs@.len() == 0 && t.traits@.len() == 0),
            self.tokens@.len() > 0 && !self.starts_declaration(0) ==> (r matches Err(ParseError::UnexpectedToken(q)) && q == 0),
            literal_constants_from(kinds_of(self.tokens@), 0) ==> (r matches Ok(t) && t.structs@.len() == 0 && t.traits@.len() == 0
                && declares_literal_constants(t.compilation_unit.declarations@, t.constants@, literal_constants(self.tokens@, self.source@, 0))),
    {
        let mut arenas = Arenas { constants: Vec::new(), structs: Vec::new(), traits: Vec::new() };
        let mut declarations: Vec<Declaration> = Vec::new();
        let mut p: usize = 0;
        let ghost mut built: Seq<(Seq<u8>, Seq<u8>)> = Seq::empty();
        proof {
            assert(built + literal_constants(self.tokens@, self.source@, 0) =~= literal_constants(self.tokens@, self.source@, 0));
        }
        while p < self.tokens.len()
            invariant
                self.wf(),
                p <= self.tokens@.len(),
                arenas.wf(),
                self.tokens@.len() == 0 ==> declarations@.len() == 0 && arenas.constants@.len() == 0
                    && arenas.structs@.len() == 0 && arenas.traits@.len() == 0,
                p > 0 ==> self.starts_declaration(0),
                literal_constants_from(kinds_of(self.tokens@), 0) ==> literal_constants_from(kinds_of(self.tokens@), p as int),
                literal_constants_from(kinds_of(self.tokens@), 0) ==> {
                    &&& arenas.structs@.len() == 0 && arenas.traits@.len() == 0
                    &&& declares_literal_constants(declarations@, arenas.constants@, built)
                    &&& literal_constants(self.tokens@, self.source@, 0) == built + literal_constants(self.tokens@, self.source@, p as int)
                },
                forall|i: int|
                    0 <= i < declarations@.len() ==> match #[trigger] declarations@[i] {
                        Declaration::Constant(c) => c < arenas.constants@.len(),
                        Declaration::Struct(s) => s < arenas.structs@.len(),
                        Declaration::Trait(t) => t < arenas.traits@.len(),
                        Declaration::Import(_) => true,
                    },
            decreases self.tokens@.len() - p,
        {
            let kind = self.tokens[p].kind;
            proof {
                let ks = kinds_of(self.tokens@);
                if literal_constants_from(ks, 0) && kind == TokenKind::Separator(59) {
                    assert(ks[p as int] == kind);
                    assert(literal_constants_from(ks, p + 1));
                }
                if literal_constants_from(ks, 0) && kind == TokenKind::Const {
                    assert(ks[p as int] == kind);
                    assert(literal_constants_from(ks, p as int));
                    assert(p + 4 <= ks.len());
                    assert(literal_constants_from(ks, p + 4));
                    assert(self.kind_at(p as int, TokenKind::Const));
                    assert(ks[p + 1] == self.tokens@[p + 1].kind);
                    assert(ks[p + 2] == self.tokens@[p + 2].kind);
                    assert(ks[p + 3] == self.tokens@[p + 3].kind);
                    if p + 4 < ks.len() {
                        assert(ks[p + 4] == self.tokens@[p + 4].kind);
                        assert(ks[p + 4] == TokenKind::Separator(59) || ks[p + 4] == TokenKind::Const);
                    }
                    assert(self.kind_at(p + 1, TokenKind::Identifier));
                    assert(self.sep_at(p + 2, 61));
                    assert(self.literal_at(p + 3));
                    assert(!self.path_continues(p + 3));
                }
            }
            let ghost before = declarations@;
            let ghost a0 = arenas;
            match kind {
                TokenKind::Const => {
                    let (index, q) = self.parse_constant(p, &mut arenas)?;
                    declarations.push(Declaration::Constant(index));
                    proof {
                        if literal_constants_from(kinds_of(self.tokens@), 0) {
                            let pair = (self.lexeme_at(p + 1), self.lexeme_at(p + 3));
                            let old_built = built;
                            built = built.push(pair);
                            assert(literal_constants(self.tokens@, self.source@, p as int) == seq![pair] + literal_constants(
                                self.tokens@,
                                self.source@,
                                p + 4,
                            ));
                            assert(old_built + (seq![pair] + literal_constants(self.tokens@, self.source@, p + 4)) =~= built
                                + literal_constants(self.tokens@, self.source@, p + 4));
                            assert forall|i: int| 0 <= i < built.len() implies #[trigger] declarations@[i] == Declaration::Constant(
                                i as usize,
                            ) && arenas.constants@[i].name@ == built[i].0 && (arenas.constants@[i].value matches Expression::Literal {
                                lexeme,
                                ..
                            } && lexeme@ == built[i].1) by {
                                if i < old_built.len() {
                                    assert(declarations@[i] == before[i]);
                                    assert(arenas.constants@[i] == a0.constants@[i]);
                                }
                            }
                        }
                    }
                    p = q;
                },
                TokenKind::Struct => {
                    let (index, q) = self.parse_struct(p, &mut arenas)?;
                    declarations.push(Declaration::Struct(index));
                    p = q;
                },
                TokenKind::Trait => {
                    let (index, q) = self.parse_trait(p, &mut arenas)?;
                    declarations.push(Declaration::Trait(index));
                    p = q;
                },
                TokenKind::Use => {
                    let (import, q) = self.parse_import(p)?;
                    declarations.push(Declaration::Import(import));
                    p = q;
                },
                TokenKind::Separator(b) => {
                    if b == 59 {
                        proof {
                            if literal_constants_from(kinds_of(self.tokens@), 0) {
                                assert(literal_constants(self.tokens@, self.source@, p as int) == literal_constants(
                                    self.tokens@,
                                    self.source@,
                                    p + 1,
                                ));
                            }
                        }
                        p = p + 1;
                    } else {
                        return Err(ParseError::UnexpectedToken(p));
                    }
                },
                _ => {
                    return Err(ParseError::UnexpectedToken(p));
                },
            }
            proof {
                assert forall|i: int| 0 <= i < declarations@.len() implies match #[trigger] declarations@[i] {
                    Declaration::Constant(c) => c < arenas.constants@.len(),
                    Declaration::Struct(s) => s < arenas.structs@.len(),
                    Declaration::Trait(t) => t < arenas.traits@.len(),
                    Declaration::Import(_) => true,
                } by {
                    if i < before.len() {
                        assert(declarations@[i] == before[i]);
                    }
                }
            }
        }
        let tree = AbstractSyntaxTree {
            compilation_unit: CompilationUnit { declarations },
            constants: arenas.constants,
            structs: arenas.structs,
            traits: arenas.traits,
        };
        proof {
            assert forall|i: int| 0 <= i < tree.structs@.len() implies {
                &&& fields_wf(#[trigger] tree.structs@[i].fields@, tree.constants@.len())
                &&& match tree.structs@[i].body {
                    Some(b) => forall|j: int| 0 <= j < b.attributes.len() ==> #[trigger] b.attributes@[j] < tree.constants@.len(),
                    None => true,
                }
            } by {
                assert(struct_wf(arenas.structs@[i], arenas.constants@.len()));
            }
        }
        Ok(tree)
    }
}

/// The syntax tree of a source file.
pub fn syntax_tree(text: &str) -> (r: Result<AbstractSyntaxTree, ParseError>)
    ensures
        r matches Ok(t) ==> t.wf(),
        text.spec_bytes().len() == 0 ==> (r matches Ok(t) && t.compilation_unit.declarations@.len() == 0
            && t.constants@.len() == 0 && t.structs@.len() == 0 && t.traits@.len() == 0),
        blank(text.spec_bytes()) ==> (r matches Ok(t) && t.compilation_unit.declarations@.len() == 0
            && t.constants@.len() == 0 && t.structs@.len() == 0 && t.traits@.len() == 0),
        literal_constants_text(text.spec_bytes()) ==> (r matches Ok(t) && t.structs@.len() == 0 && t.traits@.len() == 0
            && declares_literal_constants(
            t.compilation_unit.declarations@,
            t.constants@,
            literal_constants(plain_tokens(text.spec_bytes(), 0)->0, text.spec_bytes(), 0),
        )),
{
    let source = text.as_bytes();
    let tokens = match tokenize(source) {
        Ok(t) => t,
        Err(e) => {
            return Err(ParseError::Tokenize(e));
        },
    };
    proof {
        assert(kinds_of(tokens@).len() == tokens@.len());
    }
    proof {
        assert(tokens_wf(tokens@, source@));
        if source@.len() == 0 && tokens@.len() > 0 {
            let first = tokens@[0];
            assert(first.start < first.end <= source@.len());
        }
    }
    if tokens.len() >= usize::MAX - 5 {
        return Err(ParseError::UnexpectedEnd);
    }
    let parser = SyntaxParser { source, tokens };
    parser.parse_unit()
}

} // verus!
