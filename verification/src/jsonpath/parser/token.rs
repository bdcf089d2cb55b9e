//! The tokens of a path expression and the tokenizer that yields them.
use crate::jsonpath::exception::{ErrorCode, ErrorKind, Range};
use crate::jsonpath::parser::lexeme::{
    is_blank, is_next_token, lemma_spelling_ends_plain, lexeme_at, no_token_at,
};
use crate::jsonpath::parser::scan::{is_blank_byte, next_token};
use crate::text::{decimal, push_char, push_decimal};
use vstd::prelude::*;
use vstd::string::StringSliceAdditionalSpecFns;
use vstd::utf8::{
    encode_utf8_valid_utf8, is_char_boundary, is_char_boundary_iff_not_is_continuation_byte,
    is_char_boundary_start_end_of_seq, length_of_first_scalar, pop_first_scalar, valid_utf8,
};

verus! {

/// The kind of a token.
#[allow(non_camel_case_types)]
#[derive(Clone, Copy, Debug, PartialEq, Eq, Hash, Structural)]
pub enum TokenKind {
    /// Stands for input that starts no token.
    Error,
    /// The end of the input.
    EOI,
    /// A run of blanks; the tokenizer passes over it and never yields it.
    Whitespace,
    Ident,
    QuotedString,
    LiteralInteger,
    LiteralFloat,
    // Symbols
    Dollar,
    DoubleEq,
    Eq,
    NotEq,
    Lt,
    Gt,
    Lte,
    Gte,
    Spaceship,
    Plus,
    Minus,
    Multiply,
    Divide,
    Modulo,
    StringConcat,
    LParen,
    RParen,
    Comma,
    Period,
    DoublePeriod,
    Colon,
    DoubleColon,
    SemiColon,
    Backslash,
    LBracket,
    RBracket,
    Caret,
    LBrace,
    RBrace,
    AtSign,
    Placeholder,
    // Reserved words
    AND,
    OR,
    TRUE,
    FALSE,
    NULL,
    NOT,
    IN,
    NIN,
    SUBSETOF,
    CONTAINS,
    SIZE,
    EMPTY,
}

impl TokenKind {
    /// The twelve reserved words of the language.
    pub open spec fn is_word(self) -> bool {
        self is AND || self is OR || self is TRUE || self is FALSE || self is NULL || self is NOT
            || self is IN || self is NIN || self is SUBSETOF || self is CONTAINS || self is SIZE
            || self is EMPTY
    }

    /// Whether the kind is a keyword: one of the twelve reserved words. No
    /// name, literal or punctuation sign is one, nor are `Error`, `EOI` and
    /// `Whitespace`.
    pub fn is_keyword(&self) -> (r: bool)
        ensures
            r == self.is_word(),
    {
        matches!(
            self,
            TokenKind::AND
                | TokenKind::OR
                | TokenKind::TRUE
                | TokenKind::FALSE
                | TokenKind::NULL
                | TokenKind::NOT
                | TokenKind::IN
                | TokenKind::NIN
                | TokenKind::SUBSETOF
                | TokenKind::CONTAINS
                | TokenKind::SIZE
                | TokenKind::EMPTY
        )
    }

    /// Whether the kind is a reserved word that can never be used as a name.
    pub fn is_reserved_ident(&self) -> (r: bool)
        ensures
            r == (*self is AND || *self is OR),
    {
        matches!(self, TokenKind::AND | TokenKind::OR)
    }
}

/// The bytes of a text.
pub open spec fn bytes_of(source: &str) -> Seq<u8> {
    source.spec_bytes()
}

/// The offset `at` lies in `bytes` and falls between two characters.
pub open spec fn is_boundary(bytes: Seq<u8>, at: int) -> bool {
    0 <= at <= bytes.len() && is_char_boundary(bytes, at)
}

/// The first byte at or after `from` that is no blank stands at `at`, or
/// only blanks follow `from` and `at` is the end of the input.
pub open spec fn is_token_start(input: Seq<u8>, from: int, at: int) -> bool {
    &&& 0 <= from <= at <= input.len()
    &&& forall|i: int| from <= i < at ==> is_blank(#[trigger] input[i])
    &&& (at == input.len() || !is_blank(input[at]))
}

/// The offset after an ASCII character falls between two characters.
pub proof fn lemma_boundary_after_plain(bytes: Seq<u8>, at: int)
    requires
        valid_utf8(bytes),
        0 <= at < bytes.len(),
        bytes[at] < 0x80,
    ensures
        is_boundary(bytes, at),
        is_boundary(bytes, at + 1),
    decreases bytes.len(),
{
    is_char_boundary_iff_not_is_continuation_byte(bytes, at);
    let first = length_of_first_scalar(bytes);
    let rest = pop_first_scalar(bytes);
    if at == 0 {
        assert(first == 1);
        assert(is_char_boundary(rest, 0));
    } else {
        assert(is_char_boundary(rest, at - first));
        assert(at - first >= 0);
        assert(rest[at - first] == bytes[at]);
        lemma_boundary_after_plain(rest, at - first);
    }
}

/// A token: its kind and the part of the source text that spells it.
#[derive(Clone, Copy, Debug, PartialEq, Eq)]
pub struct Token<'a> {
    pub source: &'a str,
    pub kind: TokenKind,
    pub span: Range,
}

impl<'a> Token<'a> {
    /// The span lies in the source text, and both of its ends fall between
    /// two characters.
    pub open spec fn is_valid(self) -> bool {
        &&& self.span.start <= self.span.end
        &&& is_boundary(bytes_of(self.source), self.span.start as int)
        &&& is_boundary(bytes_of(self.source), self.span.end as int)
    }

    /// The bytes that the span covers.
    pub open spec fn text_bytes(self) -> Seq<u8> {
        bytes_of(self.source).subrange(self.span.start as int, self.span.end as int)
    }

    /// The token that marks the end of `source`: it covers no text.
    pub fn new_eoi(source: &'a str) -> (token: Self)
        ensures
            token.source@ == source@,
            token.kind is EOI,
            token.span.start == bytes_of(source).len(),
            token.span.end == bytes_of(source).len(),
            token.is_valid(),
    {
        proof {
            encode_utf8_valid_utf8(source@);
            is_char_boundary_start_end_of_seq(bytes_of(source));
        }
        let end = source.as_bytes().len();
        Token { source, kind: TokenKind::EOI, span: Range { start: end, end } }
    }

    /// The token as text for a human reader: the name of its kind, and in
    /// round brackets the two ends of its span in decimal digits with `..`
    /// between, as in `Ident(2..4)`.
    pub fn describe(&self) -> (r: String)
        ensures
            r@ == self.kind.name() + seq!['('] + decimal(self.span.start as int) + seq!['.', '.']
                + decimal(self.span.end as int) + seq![')'],
    {
        let mut out = self.kind.as_str().to_owned();
        push_char(&mut out, '(');
        push_decimal(&mut out, self.span.start as u64);
        push_char(&mut out, '.');
        push_char(&mut out, '.');
        push_decimal(&mut out, self.span.end as u64);
        push_char(&mut out, ')');
        assert(out@ =~= self.kind.name() + seq!['('] + decimal(self.span.start as int) + seq![
            '.',
            '.',
        ] + decimal(self.span.end as int) + seq![')']);
        out
    }

    /// The text that the span covers.
    pub fn text(&self) -> (text: &'a str)
        requires
            self.is_valid(),
        ensures
            bytes_of(text) == self.text_bytes(),
    {
        let (head, _) = self.source.split_at(self.span.end);
        proof {
            let bytes = bytes_of(self.source);
            let start = self.span.start as int;
            encode_utf8_valid_utf8(self.source@);
            encode_utf8_valid_utf8(head@);
            if start < bytes_of(head).len() {
                is_char_boundary_iff_not_is_continuation_byte(bytes, start);
                is_char_boundary_iff_not_is_continuation_byte(bytes_of(head), start);
            } else {
                is_char_boundary_start_end_of_seq(bytes_of(head));
            }
        }
        let (_, text) = head.split_at(self.span.start);
        assert(bytes_of(text) =~= self.text_bytes());
        text
    }
}

/// Walks a path expression from left to right and yields its tokens.
pub struct Tokenizer<'a> {
    source: &'a str,
    position: usize,
    eoi: bool,
}

impl<'a> Tokenizer<'a> {
    #[verifier::type_invariant]
    spec fn well_formed(self) -> bool {
        &&& is_boundary(bytes_of(self.source), self.position as int)
        &&& self.eoi ==> self.position == bytes_of(self.source).len()
    }

    /// The text being read.
    pub closed spec fn source(self) -> &'a str {
        self.source
    }

    /// The offset of the first byte that has not been read.
    pub closed spec fn position(self) -> int {
        self.position as int
    }

    /// Whether the end of the input has been yielded.
    pub closed spec fn finished(self) -> bool {
        self.eoi
    }

    /// A tokenizer at the start of `source`.
    pub fn new(source: &'a str) -> (tokenizer: Self)
        ensures
            tokenizer.source()@ == source@,
            tokenizer.position() == 0,
            !tokenizer.finished(),
    {
        proof {
            encode_utf8_valid_utf8(source@);
            is_char_boundary_start_end_of_seq(bytes_of(source));
        }
        Tokenizer { source, position: 0, eoi: false }
    }

    /// The next token.
    ///
    /// Blanks are passed over. Where a token starts at the first byte that
    /// is no blank, it is yielded, and reading goes on behind it. Where none
    /// does, the result is a syntax error whose span runs from that byte to
    /// the end of the input, and the rest of the input counts as read. At
    /// the end of the input the result is once the `EOI` token and `None`
    /// from then on.
    ///
    /// That an error takes the rest of the input with it is a choice of
    /// this library: the span of the error is what was read, as the span of
    /// a token is. A tokenizer could as well go on somewhere behind the byte
    /// at which no token starts; a caller that wants the tokens behind an
    /// error starts a new tokenizer on the text behind that byte.
    pub fn next(&mut self) -> (r: Option<Result<Token<'a>, ErrorCode>>)
        ensures
            final(self).source()@ == old(self).source()@,
            old(self).finished() ==> r is None,
            match r {
                None => {
                    &&& old(self).finished()
                    &&& final(self).finished()
                    &&& final(self).position() == old(self).position()
                },
                Some(Ok(token)) => {
                    &&& token.source@ == old(self).source()@
                    &&& token.is_valid()
                    &&& is_token_start(
                        bytes_of(old(self).source()),
                        old(self).position(),
                        token.span.start as int,
                    )
                    &&& final(self).position() == token.span.end
                    &&& if token.kind is EOI {
                        &&& token.span.start == bytes_of(old(self).source()).len()
                        &&& token.span.end == token.span.start
                        &&& !old(self).finished()
                        &&& final(self).finished()
                    } else {
                        &&& is_next_token(
                            bytes_of(old(self).source()),
                            token.span.start as int,
                            token.span.end as int,
                            token.kind,
                        )
                        &&& !final(self).finished()
                    }
                },
                Some(Err(error)) => {
                    &&& error.kind == ErrorKind::SyntaxException
                    &&& error.message@ == "unable to recognize the rest tokens"@
                    &&& error.span matches Some(span)
                    &&& is_token_start(
                        bytes_of(old(self).source()),
                        old(self).position(),
                        span.start as int,
                    )
                    &&& span.start < span.end == bytes_of(old(self).source()).len()
                    &&& no_token_at(bytes_of(old(self).source()), span.start as int)
                    &&& final(self).position() == span.end
                    &&& !final(self).finished()
                },
            },
    {
        proof {
            use_type_invariant(&*self);
            encode_utf8_valid_utf8(self.source@);
            is_char_boundary_start_end_of_seq(bytes_of(self.source));
        }
        let source = self.source;
        let input = source.as_bytes();
        let n = input.len();
        if self.eoi {
            return None;
        }
        let mut start = self.position;
        while start < n && is_blank_byte(input[start])
            invariant
                n == input@.len(),
                input@ == bytes_of(source),
                valid_utf8(input@),
                self.position <= start <= n,
                is_boundary(input@, start as int),
                forall|i: int| self.position <= i < start ==> is_blank(#[trigger] input@[i]),
            decreases n - start,
        {
            proof {
                lemma_boundary_after_plain(input@, start as int);
            }
            start += 1;
        }
        if start >= n {
            self.position = n;
            self.eoi = true;
            return Some(Ok(Token::new_eoi(source)));
        }
        match next_token(input, start) {
            Some((kind, end)) => {
                proof {
                    assert(lexeme_at(input@, start as int, end as int, kind));
                    let s = input@.subrange(start as int, end as int);
                    lemma_spelling_ends_plain(kind, s);
                    assert(s.last() == input@[end - 1]);
                    lemma_boundary_after_plain(input@, end - 1);
                }
                self.position = end;
                Some(Ok(Token { source, kind, span: Range { start, end } }))
            },
            None => {
                self.position = n;
                let message = "unable to recognize the rest tokens".to_owned();
                let span = Some(Range { start, end: n });
                Some(Err(ErrorCode::syntax_exception(message).set_span(span)))
            },
        }
    }
}

/// Where reading stands before the token `k`: at the start of the input
/// before the first token, and behind the token before any other.
pub open spec fn reading_from(tokens: Seq<Token>, k: int) -> int {
    if k <= 0 {
        0
    } else {
        tokens[k - 1].span.end as int
    }
}

/// The token `k` is the one that follows the tokens before it: it lies in
/// the text, it begins at the first byte behind them that is no blank, and
/// it is the token that starts there, or the `EOI` token where the input
/// ends there.
pub open spec fn is_linked(source: &str, tokens: Seq<Token>, k: int) -> bool {
    let token = tokens[k];
    &&& token.source@ == source@
    &&& token.is_valid()
    &&& is_token_start(bytes_of(source), reading_from(tokens, k), token.span.start as int)
    &&& if token.kind is EOI {
        token.span.start == bytes_of(source).len() && token.span.end == token.span.start
    } else {
        is_next_token(
            bytes_of(source),
            token.span.start as int,
            token.span.end as int,
            token.kind,
        )
    }
}

/// The first `n` of the tokens are the first `n` tokens of the text, none of
/// them the end of the input.
pub open spec fn is_token_run(source: &str, tokens: Seq<Token>, n: int) -> bool {
    &&& 0 <= n <= tokens.len()
    &&& forall|k: int|
        0 <= k < n ==> #[trigger] is_linked(source, tokens, k) && !(tokens[k].kind is EOI)
}

/// The tokens are those of the text, the `EOI` token last.
pub open spec fn is_tokenization(source: &str, tokens: Seq<Token>) -> bool {
    &&& tokens.len() >= 1
    &&& is_token_run(source, tokens, tokens.len() - 1)
    &&& is_linked(source, tokens, tokens.len() - 1)
    &&& tokens[tokens.len() - 1].kind is EOI
}

/// The text has tokens up to the byte `at`, where none starts: behind a run
/// of tokens and the blanks that follow, `at` is no blank, and no token
/// starts there.
pub open spec fn fails_at(source: &str, at: int) -> bool {
    exists|tokens: Seq<Token>|
        {
            &&& #[trigger] is_token_run(source, tokens, tokens.len() as int)
            &&& is_token_start(bytes_of(source), reading_from(tokens, tokens.len() as int), at)
            &&& at < bytes_of(source).len()
            &&& no_token_at(bytes_of(source), at)
        }
}

/// All tokens of the text, the `EOI` token last; or the syntax error of the
/// first place at which no token starts, whose span runs from there to the
/// end of the text.
pub fn tokenize<'a>(source: &'a str) -> (r: Result<Vec<Token<'a>>, ErrorCode>)
    ensures
        match r {
            Ok(tokens) => is_tokenization(source, tokens@),
            Err(error) => {
                &&& error.kind == ErrorKind::SyntaxException
                &&& error.message@ == "unable to recognize the rest tokens"@
                &&& error.span matches Some(span)
                &&& fails_at(source, span.start as int)
                &&& span.end == bytes_of(source).len()
            },
        },
{
    let mut tokenizer = Tokenizer::new(source);
    let mut tokens: Vec<Token<'a>> = Vec::new();
    loop
        invariant
            tokenizer.source()@ == source@,
            !tokenizer.finished(),
            is_token_run(source, tokens@, tokens.len() as int),
            tokenizer.position() == reading_from(tokens@, tokens.len() as int),
        decreases bytes_of(source).len() - tokenizer.position(),
    {
        let ghost before = tokens@;
        let ghost n = tokens.len() as int;
        proof {
            lemma_same_bytes(tokenizer.source(), source);
        }
        match tokenizer.next() {
            Some(Ok(token)) => {
                tokens.push(token);
                proof {
                    lemma_same_bytes(token.source, source);
                    assert(is_linked(source, tokens@, n));
                    assert forall|k: int| 0 <= k < n implies #[trigger] is_linked(
                        source,
                        tokens@,
                        k,
                    ) && !(tokens@[k].kind is EOI) by {
                        assert(is_linked(source, before, k));
                        assert(tokens@[k] == before[k]);
                        if k > 0 {
                            assert(tokens@[k - 1] == before[k - 1]);
                        }
                    }
                }
                if let TokenKind::EOI = token.kind {
                    return Ok(tokens);
                }
                proof {
                    assert(lexeme_at(
                        bytes_of(source),
                        token.span.start as int,
                        token.span.end as int,
                        token.kind,
                    ));
                }
            },
            Some(Err(error)) => {
                return Err(error);
            },
            None => {
                // Not reached: the end of the input has not been yielded yet.
                return Ok(tokens);
            },
        }
    }
}

/// The first byte at or after a place that is no blank is one byte only.
pub proof fn lemma_token_start_unique(input: Seq<u8>, from: int, a: int, b: int)
    requires
        is_token_start(input, from, a),
        is_token_start(input, from, b),
    ensures
        a == b,
{
    if a < b {
        assert(is_blank(input[a]));
    }
    if b < a {
        assert(is_blank(input[b]));
    }
}

/// Two rows of tokens of the same text agree in the kind and the span of
/// the token `k`, as far as both have it.
pub proof fn lemma_tokens_agree(source: &str, a: Seq<Token>, b: Seq<Token>, k: int)
    requires
        is_tokenization(source, a),
        is_tokenization(source, b),
        0 <= k < a.len(),
        k < b.len(),
    ensures
        a[k].kind == b[k].kind,
        a[k].span == b[k].span,
    decreases k,
{
    if k > 0 {
        lemma_tokens_agree(source, a, b, k - 1);
    }
    assert(is_linked(source, a, k));
    assert(is_linked(source, b, k));
    let input = bytes_of(source);
    lemma_token_start_unique(
        input,
        reading_from(a, k),
        a[k].span.start as int,
        b[k].span.start as int,
    );
    let start = a[k].span.start as int;
    if a[k].kind is EOI {
        if !(b[k].kind is EOI) {
            assert(lexeme_at(input, start, b[k].span.end as int, b[k].kind));
        }
    } else if b[k].kind is EOI {
        assert(lexeme_at(input, start, a[k].span.end as int, a[k].kind));
    } else {
        crate::jsonpath::parser::lexeme::lemma_next_token_unique(
            input,
            start,
            a[k].span.end as int,
            a[k].kind,
            b[k].span.end as int,
            b[k].kind,
        );
    }
}

/// A text has one row of tokens: two rows of tokens of the same text are
/// equally long, and their tokens have the same kinds and spans.
pub proof fn law_tokenization_unique(source: &str, a: Seq<Token>, b: Seq<Token>)
    requires
        is_tokenization(source, a),
        is_tokenization(source, b),
    ensures
        a.len() == b.len(),
        forall|k: int| 0 <= k < a.len() ==> (#[trigger] a[k]).kind == b[k].kind && a[k].span
            == b[k].span,
{
    if a.len() < b.len() {
        let k = a.len() - 1;
        lemma_tokens_agree(source, a, b, k);
        assert(is_token_run(source, b, b.len() - 1));
        assert(is_linked(source, b, k));
        assert(!(b[k].kind is EOI));
    }
    if b.len() < a.len() {
        let k = b.len() - 1;
        lemma_tokens_agree(source, a, b, k);
        assert(is_token_run(source, a, a.len() - 1));
        assert(is_linked(source, a, k));
        assert(!(a[k].kind is EOI));
    }
    assert forall|k: int| 0 <= k < a.len() implies (#[trigger] a[k]).kind == b[k].kind && a[k].span
        == b[k].span by {
        lemma_tokens_agree(source, a, b, k);
    }
}

/// Texts of the same characters have the same bytes.
pub proof fn lemma_same_bytes(a: &str, b: &str)
    requires
        a@ == b@,
    ensures
        bytes_of(a) == bytes_of(b),
{
}

/// Every kind of token, in the order of their declaration.
pub open spec fn all_kinds() -> Seq<TokenKind> {
    seq![
        TokenKind::Error,
        TokenKind::EOI,
        TokenKind::Whitespace,
        TokenKind::Ident,
        TokenKind::QuotedString,
        TokenKind::LiteralInteger,
        TokenKind::LiteralFloat,
        TokenKind::Dollar,
        TokenKind::DoubleEq,
        TokenKind::Eq,
        TokenKind::NotEq,
        TokenKind::Lt,
        TokenKind::Gt,
        TokenKind::Lte,
        TokenKind::Gte,
        TokenKind::Spaceship,
        TokenKind::Plus,
        TokenKind::Minus,
        TokenKind::Multiply,
        TokenKind::Divide,
        TokenKind::Modulo,
        TokenKind::StringConcat,
        TokenKind::LParen,
        TokenKind::RParen,
        TokenKind::Comma,
        TokenKind::Period,
        TokenKind::DoublePeriod,
        TokenKind::Colon,
        TokenKind::DoubleColon,
        TokenKind::SemiColon,
        TokenKind::Backslash,
        TokenKind::LBracket,
        TokenKind::RBracket,
        TokenKind::Caret,
        TokenKind::LBrace,
        TokenKind::RBrace,
        TokenKind::AtSign,
        TokenKind::Placeholder,
        TokenKind::AND,
        TokenKind::OR,
        TokenKind::TRUE,
        TokenKind::FALSE,
        TokenKind::NULL,
        TokenKind::NOT,
        TokenKind::IN,
        TokenKind::NIN,
        TokenKind::SUBSETOF,
        TokenKind::CONTAINS,
        TokenKind::SIZE,
        TokenKind::EMPTY,
    ]
}

impl TokenKind {
    /// The name of the kind, as it is written in the declaration.
    pub open spec fn name(self) -> Seq<char> {
        match self {
            TokenKind::Error => "Error"@,
            TokenKind::EOI => "EOI"@,
            TokenKind::Whitespace => "Whitespace"@,
            TokenKind::Ident => "Ident"@,
            TokenKind::QuotedString => "QuotedString"@,
            TokenKind::LiteralInteger => "LiteralInteger"@,
            TokenKind::LiteralFloat => "LiteralFloat"@,
            TokenKind::Dollar => "Dollar"@,
            TokenKind::DoubleEq => "DoubleEq"@,
            TokenKind::Eq => "Eq"@,
            TokenKind::NotEq => "NotEq"@,
            TokenKind::Lt => "Lt"@,
            TokenKind::Gt => "Gt"@,
            TokenKind::Lte => "Lte"@,
            TokenKind::Gte => "Gte"@,
            TokenKind::Spaceship => "Spaceship"@,
            TokenKind::Plus => "Plus"@,
            TokenKind::Minus => "Minus"@,
            TokenKind::Multiply => "Multiply"@,
            TokenKind::Divide => "Divide"@,
            TokenKind::Modulo => "Modulo"@,
            TokenKind::StringConcat => "StringConcat"@,
            TokenKind::LParen => "LParen"@,
            TokenKind::RParen => "RParen"@,
            TokenKind::Comma => "Comma"@,
            TokenKind::Period => "Period"@,
            TokenKind::DoublePeriod => "DoublePeriod"@,
            TokenKind::Colon => "Colon"@,
            TokenKind::DoubleColon => "DoubleColon"@,
            TokenKind::SemiColon => "SemiColon"@,
            TokenKind::Backslash => "Backslash"@,
            TokenKind::LBracket => "LBracket"@,
            TokenKind::RBracket => "RBracket"@,
            TokenKind::Caret => "Caret"@,
            TokenKind::LBrace => "LBrace"@,
            TokenKind::RBrace => "RBrace"@,
            TokenKind::AtSign => "AtSign"@,
            TokenKind::Placeholder => "Placeholder"@,
            TokenKind::AND => "AND"@,
            TokenKind::OR => "OR"@,
            TokenKind::TRUE => "TRUE"@,
            TokenKind::FALSE => "FALSE"@,
            TokenKind::NULL => "NULL"@,
            TokenKind::NOT => "NOT"@,
            TokenKind::IN => "IN"@,
            TokenKind::NIN => "NIN"@,
            TokenKind::SUBSETOF => "SUBSETOF"@,
            TokenKind::CONTAINS => "CONTAINS"@,
            TokenKind::SIZE => "SIZE"@,
            TokenKind::EMPTY => "EMPTY"@,
        }
    }

    /// The name of the kind.
    pub fn as_str(&self) -> (r: &'static str)
        ensures
            r@ == self.name(),
    {
        match self {
            TokenKind::Error => "Error",
            TokenKind::EOI => "EOI",
            TokenKind::Whitespace => "Whitespace",
            TokenKind::Ident => "Ident",
            TokenKind::QuotedString => "QuotedString",
            TokenKind::LiteralInteger => "LiteralInteger",
            TokenKind::LiteralFloat => "LiteralFloat",
            TokenKind::Dollar => "Dollar",
            TokenKind::DoubleEq => "DoubleEq",
            TokenKind::Eq => "Eq",
            TokenKind::NotEq => "NotEq",
            TokenKind::Lt => "Lt",
            TokenKind::Gt => "Gt",
            TokenKind::Lte => "Lte",
            TokenKind::Gte => "Gte",
            TokenKind::Spaceship => "Spaceship",
            TokenKind::Plus => "Plus",
            TokenKind::Minus => "Minus",
            TokenKind::Multiply => "Multiply",
            TokenKind::Divide => "Divide",
            TokenKind::Modulo => "Modulo",
            TokenKind::StringConcat => "StringConcat",
            TokenKind::LParen => "LParen",
            TokenKind::RParen => "RParen",
            TokenKind::Comma => "Comma",
            TokenKind::Period => "Period",
            TokenKind::DoublePeriod => "DoublePeriod",
            TokenKind::Colon => "Colon",
            TokenKind::DoubleColon => "DoubleColon",
            TokenKind::SemiColon => "SemiColon",
            TokenKind::Backslash => "Backslash",
            TokenKind::LBracket => "LBracket",
            TokenKind::RBracket => "RBracket",
            TokenKind::Caret => "Caret",
            TokenKind::LBrace => "LBrace",
            TokenKind::RBrace => "RBrace",
            TokenKind::AtSign => "AtSign",
            TokenKind::Placeholder => "Placeholder",
            TokenKind::AND => "AND",
            TokenKind::OR => "OR",
            TokenKind::TRUE => "TRUE",
            TokenKind::FALSE => "FALSE",
            TokenKind::NULL => "NULL",
            TokenKind::NOT => "NOT",
            TokenKind::IN => "IN",
            TokenKind::NIN => "NIN",
            TokenKind::SUBSETOF => "SUBSETOF",
            TokenKind::CONTAINS => "CONTAINS",
            TokenKind::SIZE => "SIZE",
            TokenKind::EMPTY => "EMPTY",
        }
    }

    /// Every kind of token, in the order of their declaration.
    pub fn all() -> (r: Vec<TokenKind>)
        ensures
            r@ == all_kinds(),
    {
        let r = vec![
            TokenKind::Error,
            TokenKind::EOI,
            TokenKind::Whitespace,
            TokenKind::Ident,
            TokenKind::QuotedString,
            TokenKind::LiteralInteger,
            TokenKind::LiteralFloat,
            TokenKind::Dollar,
            TokenKind::DoubleEq,
            TokenKind::Eq,
            TokenKind::NotEq,
            TokenKind::Lt,
            TokenKind::Gt,
            TokenKind::Lte,
            TokenKind::Gte,
            TokenKind::Spaceship,
            TokenKind::Plus,
            TokenKind::Minus,
            TokenKind::Multiply,
            TokenKind::Divide,
            TokenKind::Modulo,
            TokenKind::StringConcat,
            TokenKind::LParen,
            TokenKind::RParen,
            TokenKind::Comma,
            TokenKind::Period,
            TokenKind::DoublePeriod,
            TokenKind::Colon,
            TokenKind::DoubleColon,
            TokenKind::SemiColon,
            TokenKind::Backslash,
            TokenKind::LBracket,
            TokenKind::RBracket,
            TokenKind::Caret,
            TokenKind::LBrace,
            TokenKind::RBrace,
            TokenKind::AtSign,
            TokenKind::Placeholder,
            TokenKind::AND,
            TokenKind::OR,
            TokenKind::TRUE,
            TokenKind::FALSE,
            TokenKind::NULL,
            TokenKind::NOT,
            TokenKind::IN,
            TokenKind::NIN,
            TokenKind::SUBSETOF,
            TokenKind::CONTAINS,
            TokenKind::SIZE,
            TokenKind::EMPTY,
        ];
        assert(r@ =~= all_kinds());
        r
    }
}

/// The names of all kinds of token, in the order of their declaration.
pub fn all_reserved_keywords() -> (r: Vec<String>)
    ensures
        r@.len() == all_kinds().len(),
        forall|i: int| 0 <= i < r@.len() ==> (#[trigger] r@[i])@ == all_kinds()[i].name(),
{
    let kinds = TokenKind::all();
    let mut result: Vec<String> = Vec::new();
    let mut i: usize = 0;
    while i < kinds.len()
        invariant
            kinds@ == all_kinds(),
            0 <= i <= kinds.len(),
            result@.len() == i,
            forall|k: int| 0 <= k < i ==> (#[trigger] result@[k])@ == all_kinds()[k].name(),
        decreases kinds.len() - i,
    {
        result.push(kinds[i].as_str().to_owned());
        i += 1;
    }
    result
}

} // verus!
