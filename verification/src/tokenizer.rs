//! Splits source text into tokens.
use crate::ast::LiteralKind;
use vstd::prelude::*;

verus! {

/// The kinds of tokens.
#[derive(Clone, Copy, Debug, PartialEq, Eq, Structural)]
pub enum TokenKind {
    Identifier,
    Const,
    Struct,
    Trait,
    Use,
    SelfKeyword,
    Literal(LiteralKind),
    /// One of `( ) { } [ ] . , : = * ;`, by its byte.
    Separator(u8),
    /// The end of a line, where the grammar needs one.
    NewLine,
    /// The start of the input, before its first token.
    ParsingStart,
    /// The end of the input, after its last token.
    ParsingEnd,
}

/// A token: its kind and the bytes `start..end` of the source that it spans.
#[derive(Clone, Copy, Debug, PartialEq, Eq, Structural)]
pub struct Token {
    pub kind: TokenKind,
    pub start: usize,
    pub end: usize,
}

/// Why the source could not be split into tokens.
#[derive(Clone, Copy, Debug, PartialEq, Eq, Structural)]
pub enum TokenizeError {
    /// A byte that starts no token, at its position.
    UnexpectedCharacter(usize),
    /// A string literal that starts at the position and is not closed.
    UnterminatedString(usize),
}

pub open spec fn is_alpha(b: u8) -> bool {
    (65 <= b <= 90) || (97 <= b <= 122) || b == 95
}

pub open spec fn is_digit(b: u8) -> bool {
    48 <= b <= 57
}

pub open spec fn is_ident_byte(b: u8) -> bool {
    is_alpha(b) || is_digit(b)
}

pub open spec fn is_separator(b: u8) -> bool {
    b == 40 || b == 41 || b == 123 || b == 125 || b == 91 || b == 93 || b == 46 || b == 44
        || b == 58 || b == 61 || b == 42 || b == 59
}

/// The kind of a word: the keywords `const`, `struct`, `trait`, `use` and `self`, the
/// booleans `true` and `false`, else an identifier.
pub open spec fn word_kind_of(w: Seq<u8>) -> TokenKind {
    if w == seq![99u8, 111, 110, 115, 116] {
        TokenKind::Const
    } else if w == seq![115u8, 116, 114, 117, 99, 116] {
        TokenKind::Struct
    } else if w == seq![116u8, 114, 97, 105, 116] {
        TokenKind::Trait
    } else if w == seq![117u8, 115, 101] {
        TokenKind::Use
    } else if w == seq![115u8, 101, 108, 102] {
        TokenKind::SelfKeyword
    } else if w == seq![116u8, 114, 117, 101] || w == seq![102u8, 97, 108, 115, 101] {
        TokenKind::Literal(LiteralKind::Boolean)
    } else {
        TokenKind::Identifier
    }
}

/// Whether a token of this kind is a word: an identifier, a keyword or a boolean.
pub open spec fn is_word_kind(k: TokenKind) -> bool {
    k is Identifier || k is Const || k is Struct || k is Trait || k is Use || k is SelfKeyword
        || k == TokenKind::Literal(LiteralKind::Boolean)
}

/// Tokens lie in the source, in order, and do not overlap; a separator spans its one byte;
/// a word spans all the identifier bytes that follow a letter, and its kind is that of its
/// bytes.
pub open spec fn tokens_wf(tokens: Seq<Token>, source: Seq<u8>) -> bool {
    &&& forall|i: int|
        0 <= i < tokens.len() && is_word_kind(#[trigger] tokens[i].kind) ==> tokens[i].kind == word_kind_of(
            source.subrange(tokens[i].start as int, tokens[i].end as int),
        ) && (tokens[i].end == source.len() || !is_ident_byte(source[tokens[i].end as int]))
    &&& forall|i: int|
        0 <= i < tokens.len() ==> #[trigger] tokens[i].start < tokens[i].end <= source.len()
    &&& forall|i: int| 0 <= i < tokens.len() - 1 ==> #[trigger] tokens[i].end <= tokens[i + 1].start
    &&& forall|i: int|
        0 <= i < tokens.len() ==> match #[trigger] tokens[i].kind {
            TokenKind::Separator(b) => tokens[i].end == tokens[i].start + 1 && source[tokens[i].start as int] == b
                && is_separator(b),
            TokenKind::Identifier | TokenKind::Const | TokenKind::Struct | TokenKind::Trait | TokenKind::Use
            | TokenKind::SelfKeyword | TokenKind::Literal(LiteralKind::Boolean) => is_alpha(source[tokens[i].start as int])
                && forall|j: int| tokens[i].start <= j < tokens[i].end ==> is_ident_byte(source[j]),
            _ => true,
        }
}

fn byte_is_alpha(b: u8) -> (r: bool)
    ensures
        r == is_alpha(b),
{
    (65 <= b && b <= 90) || (97 <= b && b <= 122) || b == 95
}

fn byte_is_digit(b: u8) -> (r: bool)
    ensures
        r == is_digit(b),
{
    48 <= b && b <= 57
}

fn byte_is_separator(b: u8) -> (r: bool)
    ensures
        r == is_separator(b),
{
    b == 40 || b == 41 || b == 123 || b == 125 || b == 91 || b == 93 || b == 46 || b == 44
        || b == 58 || b == 61 || b == 42 || b == 59
}

/// Whether the bytes `start..end` of the source spell the word.
fn spells(source: &[u8], start: usize, end: usize, word: &[u8]) -> (r: bool)
    requires
        start <= end <= source@.len(),
    ensures
        r == (source@.subrange(start as int, end as int) == word@),
{
    if end - start != word.len() {
        return false;
    }
    let mut i: usize = 0;
    while i < word.len()
        invariant
            start <= end <= source@.len(),
            end - start == word@.len(),
            i <= word@.len(),
            forall|j: int| 0 <= j < i ==> source@[start + j] == word@[j],
        decreases word@.len() - i,
    {
        if source[start + i] != word[i] {
            assert(source@.subrange(start as int, end as int)[i as int] != word@[i as int]);
            return false;
        }
        i = i + 1;
    }
    assert(source@.subrange(start as int, end as int) =~= word@);
    true
}

/// The kind of a word made of identifier bytes: a keyword, a boolean literal or an identifier.
fn word_kind(source: &[u8], start: usize, end: usize) -> (k: TokenKind)
    requires
        start <= end <= source@.len(),
    ensures
        k == word_kind_of(source@.subrange(start as int, end as int)),
{
    proof {
        let w = source@.subrange(start as int, end as int);
        assert([99u8, 111, 110, 115, 116]@ =~= seq![99u8, 111, 110, 115, 116]);
        assert([115u8, 116, 114, 117, 99, 116]@ =~= seq![115u8, 116, 114, 117, 99, 116]);
        assert([116u8, 114, 97, 105, 116]@ =~= seq![116u8, 114, 97, 105, 116]);
        assert([117u8, 115, 101]@ =~= seq![117u8, 115, 101]);
        assert([115u8, 101, 108, 102]@ =~= seq![115u8, 101, 108, 102]);
        assert([116u8, 114, 117, 101]@ =~= seq![116u8, 114, 117, 101]);
        assert([102u8, 97, 108, 115, 101]@ =~= seq![102u8, 97, 108, 115, 101]);
    }
    if spells(source, start, end, &[99u8, 111, 110, 115, 116]) {
        TokenKind::Const
    } else if spells(source, start, end, &[115u8, 116, 114, 117, 99, 116]) {
        TokenKind::Struct
    } else if spells(source, start, end, &[116u8, 114, 97, 105, 116]) {
        TokenKind::Trait
    } else if spells(source, start, end, &[117u8, 115, 101]) {
        TokenKind::Use
    } else if spells(source, start, end, &[115u8, 101, 108, 102]) {
        TokenKind::SelfKeyword
    } else if spells(source, start, end, &[116u8, 114, 117, 101]) || spells(
        source,
        start,
        end,
        &[102u8, 97, 108, 115, 101],
    ) {
        TokenKind::Literal(LiteralKind::Boolean)
    } else {
        TokenKind::Identifier
    }
}

/// Whether the byte passes the test of `class`: 0 identifier bytes, 1 decimal digits, 2 hex
/// digits, 3 binary digits.
fn in_class(b: u8, class: u8) -> (r: bool)
    ensures
        class == 0 ==> r == is_ident_byte(b),
        class == 1 ==> r == is_digit(b),
{
    if class == 0 {
        byte_is_alpha(b) || byte_is_digit(b)
    } else if class == 1 {
        byte_is_digit(b)
    } else if class == 2 {
        byte_is_digit(b) || (97 <= b && b <= 102) || (65 <= b && b <= 70)
    } else {
        b == 48 || b == 49
    }
}

/// The end of the run of bytes from `start` that pass the test of `class`.
fn scan_while(source: &[u8], start: usize, class: u8) -> (end: usize)
    requires
        start <= source@.len(),
    ensures
        start <= end <= source@.len(),
        class == 0 ==> forall|j: int| start <= j < end ==> is_ident_byte(source@[j]),
        class == 0 ==> end == source@.len() || !is_ident_byte(source@[end as int]),
        class == 1 ==> forall|j: int| start <= j < end ==> is_digit(source@[j]),
        class == 1 ==> end == source@.len() || !is_digit(source@[end as int]),
{
    let mut end = start;
    while end < source.len() && in_class(source[end], class)
        invariant
            start <= end <= source@.len(),
            class == 0 ==> forall|j: int| start <= j < end ==> is_ident_byte(source@[j]),
            class == 1 ==> forall|j: int| start <= j < end ==> is_digit(source@[j]),
        decreases source@.len() - end,
    {
        end = end + 1;
    }
    end
}

/// Whether a token, a space, a line break or a comment can start at position `p`.
pub open spec fn starts_something(source: Seq<u8>, p: int) -> bool {
    let b = source[p];
    ||| b == 32 || b == 9 || b == 10 || b == 13
    ||| (b == 47 && p + 1 < source.len() && source[p + 1] == 47)
    ||| is_alpha(b) || is_digit(b) || b == 34 || is_separator(b)
}

/// Whether a token spans the position.
pub open spec fn covers(t: Token, p: int) -> bool {
    t.start <= p < t.end
}

/// Whether every byte of the source is a space, a tab or a line break.
pub open spec fn blank(source: Seq<u8>) -> bool {
    forall|p: int| 0 <= p < source.len() ==> #[trigger] source[p] == 32 || source[p] == 9 || source[p] == 10 || source[p] == 13
}

/// Whether the byte at `p` may be left out of every token: a space, a tab or a line break,
/// or a byte of a comment, which runs from `//` up to the end of its line.
pub open spec fn skippable(source: Seq<u8>, p: int) -> bool {
    ||| source[p] == 32 || source[p] == 9 || source[p] == 10 || source[p] == 13
    ||| exists|q: int|
        0 <= q <= p && q + 1 < source.len() && #[trigger] source[q] == 47 && source[q + 1] == 47 && forall|r: int|
            q <= r <= p ==> #[trigger] source[r] != 10
}

/// Every byte of the source lies in a token or may be left out.
pub open spec fn tokens_cover(tokens: Seq<Token>, source: Seq<u8>, upto: int) -> bool {
    forall|p: int|
        0 <= p < upto ==> skippable(source, p) || exists|i: int| 0 <= i < tokens.len() && #[trigger] covers(tokens[i], p)
}

/// The end of the run of identifier bytes from `p`.
pub open spec fn ident_end(source: Seq<u8>, p: int) -> int
    decreases source.len() - p,
{
    if p < 0 || p >= source.len() || !is_ident_byte(source[p]) {
        p
    } else {
        ident_end(source, p + 1)
    }
}

proof fn lemma_ident_end(source: Seq<u8>, start: int, end: int)
    requires
        0 <= start <= end <= source.len(),
        forall|j: int| start <= j < end ==> is_ident_byte(source[j]),
        end == source.len() || !is_ident_byte(source[end]),
    ensures
        ident_end(source, start) == end,
    decreases end - start,
{
    if start < end {
        lemma_ident_end(source, start + 1, end);
    }
}

/// The end of the run of decimal digits from `p`.
pub open spec fn digits_end(source: Seq<u8>, p: int) -> int
    decreases source.len() - p,
{
    if p < 0 || p >= source.len() || !is_digit(source[p]) {
        p
    } else {
        digits_end(source, p + 1)
    }
}

proof fn lemma_digits_end(source: Seq<u8>, start: int, end: int)
    requires
        0 <= start <= end <= source.len(),
        forall|j: int| start <= j < end ==> is_digit(source[j]),
        end == source.len() || !is_digit(source[end]),
    ensures
        digits_end(source, start) == end,
    decreases end - start,
{
    if start < end {
        lemma_digits_end(source, start + 1, end);
    }
}

/// Whether a decimal integer starts at `pos`: a digit that opens no hex or binary prefix,
/// whose run of digits is not followed by `.` and a digit.
pub open spec fn integer_at(source: Seq<u8>, pos: int) -> bool {
    let end = digits_end(source, pos + 1);
    &&& 0 <= pos < source.len() && is_digit(source[pos])
    &&& !(source[pos] == 48 && pos + 1 < source.len() && (source[pos + 1] == 120 || source[pos + 1] == 98))
    &&& !(end + 1 < source.len() && source[end] == 46 && is_digit(source[end + 1]))
}

/// The tokens of a source made of words, decimal integers, separators, spaces, tabs and
/// line breaks alone, from `pos` on; `None` where another byte occurs.
pub open spec fn plain_tokens(source: Seq<u8>, pos: int) -> Option<Seq<Token>>
    decreases source.len() - pos, 0nat,
{
    if pos < 0 || pos >= source.len() {
        Some(Seq::empty())
    } else {
        let b = source[pos];
        if b == 32 || b == 9 || b == 10 || b == 13 {
            plain_tokens(source, pos + 1)
        } else if is_alpha(b) {
            let end = ident_end(source, pos + 1);
            if end <= pos || end > source.len() {
                None
            } else {
                match plain_tokens(source, end) {
                    Some(rest) => Some(
                        seq![Token { kind: word_kind_of(source.subrange(pos, end)), start: pos as usize, end: end as usize }] + rest,
                    ),
                    None => None,
                }
            }
        } else if integer_at(source, pos) {
            let end = digits_end(source, pos + 1);
            if end <= pos || end > source.len() {
                None
            } else {
                match plain_tokens(source, end) {
                    Some(rest) => Some(
                        seq![Token { kind: TokenKind::Literal(LiteralKind::Integer), start: pos as usize, end: end as usize }] + rest,
                    ),
                    None => None,
                }
            }
        } else if is_separator(b) {
            match plain_tokens(source, pos + 1) {
                Some(rest) => Some(seq![Token { kind: TokenKind::Separator(b), start: pos as usize, end: (pos + 1) as usize }] + rest),
                None => None,
            }
        } else {
            None
        }
    }
}

/// The kinds of a sequence of tokens.
pub open spec fn kinds_of(tokens: Seq<Token>) -> Seq<TokenKind> {
    tokens.map_values(|t: Token| t.kind)
}

/// Splits the source into tokens, skipping spaces, line breaks and `//` comments.
pub fn tokenize(source: &[u8]) -> (res: Result<Vec<Token>, TokenizeError>)
    ensures
        res matches Ok(tokens) ==> tokens_wf(tokens@, source@),
        res matches Ok(tokens) ==> tokens_cover(tokens@, source@, source@.len() as int),
        res matches Err(TokenizeError::UnexpectedCharacter(p)) ==> p < source@.len() && !starts_something(source@, p as int),
        res matches Err(TokenizeError::UnterminatedString(p)) ==> p < source@.len() && source@[p as int] == 34,
        blank(source@) ==> (res matches Ok(tokens) && tokens@.len() == 0),
        plain_tokens(source@, 0) is Some ==> (res matches Ok(tokens) && plain_tokens(source@, 0) == Some(tokens@)),
{
    let mut tokens: Vec<Token> = Vec::new();
    let mut pos: usize = 0;
    while pos < source.len()
        invariant
            pos <= source@.len(),
            blank(source@) ==> tokens@.len() == 0,
            tokens_wf(tokens@, source@),
            tokens@.len() > 0 ==> tokens@.last().end <= pos,
            tokens_cover(tokens@, source@, pos as int),
            plain_tokens(source@, 0) is Some ==> (plain_tokens(source@, pos as int) matches Some(rest)
                && plain_tokens(source@, 0) == Some(tokens@ + rest)),
        decreases source@.len() - pos,
    {
        let b = source[pos];
        assert(blank(source@) ==> source@[pos as int] == 32 || source@[pos as int] == 9 || source@[pos as int] == 10
            || source@[pos as int] == 13);
        let ghost before = tokens@;
        let ghost start = pos as int;
        if b == 32 || b == 9 || b == 10 || b == 13 {
            pos = pos + 1;
        } else if b == 47 && pos + 1 < source.len() && source[pos + 1] == 47 {
            let mut end = pos + 2;
            while end < source.len() && source[end] != 10
                invariant
                    pos + 2 <= end <= source@.len(),
                    source@[pos as int] == 47 && source@[pos + 1] == 47,
                    forall|r: int| pos <= r < end ==> #[trigger] source@[r] != 10,
                decreases source@.len() - end,
            {
                end = end + 1;
            }
            proof {
                assert forall|p: int| 0 <= p < end implies skippable(source@, p) || exists|i: int|
                    0 <= i < tokens@.len() && #[trigger] covers(tokens@[i], p) by {
                    if p >= start {
                        assert(forall|r: int| start <= r <= p ==> #[trigger] source@[r] != 10);
                    }
                }
            }
            pos = end;
        } else if byte_is_alpha(b) {
            let end = scan_while(source, pos + 1, 0);
            proof {
                lemma_ident_end(source@, pos + 1, end as int);
            }
            let kind = word_kind(source, pos, end);
            tokens.push(Token { kind, start: pos, end });
            pos = end;
        } else if byte_is_digit(b) {
            let mut kind = LiteralKind::Integer;
            let mut end = pos + 1;
            if b == 48 && pos + 1 < source.len() && (source[pos + 1] == 120 || source[pos + 1] == 98) {
                if source[pos + 1] == 120 {
                    kind = LiteralKind::Hex;
                    end = scan_while(source, pos + 2, 2);
                } else {
                    kind = LiteralKind::Binary;
                    end = scan_while(source, pos + 2, 3);
                }
            } else {
                end = scan_while(source, pos + 1, 1);
                proof {
                    lemma_digits_end(source@, pos + 1, end as int);
                }
                if end < source.len() && source.len() - end > 1 && source[end] == 46 && byte_is_digit(source[end + 1]) {
                    kind = LiteralKind::Floating;
                    end = scan_while(source, end + 1, 1);
                }
            }
            tokens.push(Token { kind: TokenKind::Literal(kind), start: pos, end });
            pos = end;
        } else if b == 34 {
            let mut end = pos + 1;
            let mut closed = false;
            while end < source.len()
                invariant
                    pos + 1 <= end <= source@.len(),
                decreases source@.len() - end,
            {
                let c = source[end];
                if c == 34 {
                    closed = true;
                    break;
                } else if c == 92 && end + 1 < source.len() {
                    end = end + 2;
                } else {
                    end = end + 1;
                }
            }
            if !closed || end >= source.len() {
                return Err(TokenizeError::UnterminatedString(pos));
            }
            tokens.push(Token { kind: TokenKind::Literal(LiteralKind::String), start: pos, end: end + 1 });
            pos = end + 1;
        } else if byte_is_separator(b) {
            tokens.push(Token { kind: TokenKind::Separator(b), start: pos, end: pos + 1 });
            pos = pos + 1;
        } else {
            return Err(TokenizeError::UnexpectedCharacter(pos));
        }
        proof {
            if plain_tokens(source@, 0) is Some {
                let rest0 = plain_tokens(source@, start).unwrap();
                if tokens@.len() > before.len() {
                    let rest1 = plain_tokens(source@, pos as int).unwrap();
                    assert(rest0 == seq![tokens@.last()] + rest1);
                    assert(tokens@ =~= before.push(tokens@.last()));
                    assert(before + rest0 =~= tokens@ + rest1);
                }
            }
            assert forall|p: int| 0 <= p < pos implies skippable(source@, p) || exists|i: int|
                0 <= i < tokens@.len() && #[trigger] covers(tokens@[i], p) by {
                if p < start {
                    if !skippable(source@, p) {
                        let i = choose|i: int| 0 <= i < before.len() && #[trigger] covers(before[i], p);
                        assert(tokens@[i] == before[i]);
                    }
                } else if tokens@.len() > before.len() {
                    assert(covers(tokens@[tokens@.len() - 1], p));
                }
            }
            if tokens@.len() > before.len() {
                assert(tokens@.drop_last() == before);
                assert forall|i: int| 0 <= i < tokens@.len() - 1 implies #[trigger] tokens@[i].end <= tokens@[i + 1].start by {
                    if i < before.len() - 1 {
                        assert(tokens@[i] == before[i]);
                        assert(tokens@[i + 1] == before[i + 1]);
                    }
                }
            }
        }
    }
    proof {
        assert(tokens@ + Seq::<Token>::empty() =~= tokens@);
    }
    Ok(tokens)
}

} // verus!
