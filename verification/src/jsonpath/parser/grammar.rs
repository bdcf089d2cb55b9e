//! The grammar of path expressions, and reading a path from its tokens.
//!
//! ```text
//! path       := '$' selector*
//! selector   := '.' (name | quoted | '*')
//!             | '[' index ']'
//!             | '?' '(' filter ')'
//! index      := integer | integer 'to' (integer | 'last') | '*'
//! filter     := conjunction (OR conjunction)*
//! conjunction:= negation (AND negation)*
//! negation   := NOT? comparison
//! comparison := term (('==' | '!=' | '<>' | '<' | '>' | '<=' | '>=') term)?
//! term       := literal | '@' selector* | '(' filter ')'
//! literal    := integer | float | quoted | TRUE | FALSE | NULL
//! ```
use crate::jsonpath::exception::{ErrorCode, ErrorKind, Range};
use crate::jsonpath::parser::lexeme::{lemma_next_token_unique, lexeme_at, no_token_at};
use crate::jsonpath::parser::token::{
    bytes_of, fails_at, is_linked, is_token_run, is_token_start, is_tokenization,
    law_tokenization_unique, lemma_same_bytes, lemma_token_start_unique, reading_from, tokenize,
    Token, TokenKind,
};
use crate::jsonpath::parser::unquote::{unquote, unquoted};
use crate::jsonpath::path::{
    lemma_selector_views, selector_views, CompareOp, Expr, ExprView, JsonPath, Literal, LiteralView,
    Selector, SelectorView,
};
use crate::jsonpath::selector::{integer_in, lemma_expr_view, parse_integer};
use crate::number::{Number, NumberValue};
use vstd::prelude::*;
use vstd::utf8::{decode_utf8, encode_utf8_decode_utf8};

verus! {

/// What the grammar reads of a token: its kind and the bytes of its text.
pub type Word = (TokenKind, Seq<u8>);

/// The tokens as the grammar reads them.
pub open spec fn words(tokens: Seq<Token>) -> Seq<Word> {
    Seq::new(tokens.len(), |i: int| (tokens[i].kind, tokens[i].text_bytes()))
}

/// The kind of the token `i`, and `EOI` beyond the last token.
pub open spec fn kind_at(ws: Seq<Word>, i: int) -> TokenKind {
    if 0 <= i < ws.len() {
        ws[i].0
    } else {
        TokenKind::EOI
    }
}

/// The text of the token `i`.
pub open spec fn text_at(ws: Seq<Word>, i: int) -> Seq<char> {
    decode_utf8(ws[i].1)
}

/// The bytes spell `to`.
pub open spec fn spells_to(s: Seq<u8>) -> bool {
    s =~= seq!['t' as u8, 'o' as u8]
}

/// The bytes spell `last`.
pub open spec fn spells_last(s: Seq<u8>) -> bool {
    s =~= seq!['l' as u8, 'a' as u8, 's' as u8, 't' as u8]
}

/// The index that an integer literal spells, where a signed 64-bit word
/// holds it.
pub open spec fn index_in(s: Seq<u8>) -> Option<int> {
    match integer_in(s) {
        Some(v) => if i64::MIN <= v <= i64::MAX {
            Some(v)
        } else {
            None
        },
        None => None,
    }
}

/// The comparison that a token of the given kind stands for.
pub open spec fn comparison_of(kind: TokenKind) -> Option<CompareOp> {
    match kind {
        TokenKind::DoubleEq => Some(CompareOp::Equal),
        TokenKind::NotEq => Some(CompareOp::NotEqual),
        TokenKind::Lt => Some(CompareOp::Less),
        TokenKind::Gt => Some(CompareOp::Greater),
        TokenKind::Lte => Some(CompareOp::LessOrEqual),
        TokenKind::Gte => Some(CompareOp::GreaterOrEqual),
        _ => None,
    }
}

/// The literal that the token `i` is.
pub open spec fn parsed_literal(ws: Seq<Word>, i: int) -> Option<LiteralView> {
    match kind_at(ws, i) {
        TokenKind::NULL => Some(LiteralView::Null),
        TokenKind::TRUE => Some(LiteralView::Bool(true)),
        TokenKind::FALSE => Some(LiteralView::Bool(false)),
        TokenKind::LiteralInteger => match integer_in(ws[i].1) {
            Some(v) => Some(LiteralView::Number(NumberValue::Integer(v))),
            None => None,
        },
        TokenKind::LiteralFloat => Some(LiteralView::Float(text_at(ws, i))),
        TokenKind::QuotedString => match unquoted(text_at(ws, i)) {
            Some(text) => Some(LiteralView::String(text)),
            None => None,
        },
        _ => None,
    }
}

/// The selector between brackets whose first token is the token `i`, and
/// the index of the token behind the closing bracket.
pub open spec fn parsed_index(ws: Seq<Word>, i: int) -> Option<(SelectorView, int)> {
    if kind_at(ws, i) is Multiply {
        if kind_at(ws, i + 1) is RBracket {
            Some((SelectorView::AnyIndex, i + 2))
        } else {
            None
        }
    } else if kind_at(ws, i) is LiteralInteger && index_in(ws[i].1) is Some {
        let first = index_in(ws[i].1)->0;
        if kind_at(ws, i + 1) is RBracket {
            Some((SelectorView::Index(first), i + 2))
        } else if kind_at(ws, i + 1) is Ident && spells_to(ws[i + 1].1) && kind_at(
            ws,
            i + 3,
        ) is RBracket {
            if kind_at(ws, i + 2) is LiteralInteger && index_in(ws[i + 2].1) is Some {
                Some((SelectorView::Range(first, index_in(ws[i + 2].1)->0), i + 4))
            } else if kind_at(ws, i + 2) is Ident && spells_last(ws[i + 2].1) {
                Some((SelectorView::RangeToLast(first), i + 4))
            } else {
                None
            }
        } else {
            None
        }
    } else {
        None
    }
}

/// The name that the token `i` gives a member: itself where it is a name,
/// what it stands for where it is a quoted string.
pub open spec fn parsed_name(ws: Seq<Word>, i: int) -> Option<Seq<char>> {
    match kind_at(ws, i) {
        TokenKind::Ident => Some(text_at(ws, i)),
        TokenKind::QuotedString => unquoted(text_at(ws, i)),
        _ => None,
    }
}

/// A token of this kind begins a selector.
pub open spec fn begins_selector(kind: TokenKind) -> bool {
    kind is Period || kind is LBracket || kind is Placeholder
}

/// The term that begins with the token `i`, and the index of the token
/// behind it.
pub open spec fn parsed_term(ws: Seq<Word>, i: int) -> Option<(ExprView, int)>
    decreases ws.len() - i, 0int,
{
    if i < 0 || i >= ws.len() {
        None
    } else if kind_at(ws, i) is AtSign {
        match parsed_selectors(ws, i + 1) {
            Some((selectors, k)) => Some((ExprView::Path(selectors), k)),
            None => None,
        }
    } else if kind_at(ws, i) is LParen {
        match parsed_filter(ws, i + 1) {
            Some((e, k)) => if kind_at(ws, k) is RParen {
                Some((e, k + 1))
            } else {
                None
            },
            None => None,
        }
    } else {
        match parsed_literal(ws, i) {
            Some(l) => Some((ExprView::Literal(l), i + 1)),
            None => None,
        }
    }
}

/// The comparison that begins with the token `i`: a term, or two terms
/// with a comparison sign between.
pub open spec fn parsed_comparison(ws: Seq<Word>, i: int) -> Option<(ExprView, int)>
    decreases ws.len() - i, 1int,
{
    if i < 0 || i >= ws.len() {
        None
    } else {
        match parsed_term(ws, i) {
            Some((left, k)) => match comparison_of(kind_at(ws, k)) {
                Some(op) => if k >= i {
                    match parsed_term(ws, k + 1) {
                        Some((right, m)) => Some(
                            (ExprView::Compare(op, Box::new(left), Box::new(right)), m),
                        ),
                        None => None,
                    }
                } else {
                    None
                },
                None => Some((left, k)),
            },
            None => None,
        }
    }
}

/// The negation that begins with the token `i`: a comparison, with or
/// without `NOT` before it.
pub open spec fn parsed_negation(ws: Seq<Word>, i: int) -> Option<(ExprView, int)>
    decreases ws.len() - i, 2int,
{
    if i < 0 || i >= ws.len() {
        None
    } else if kind_at(ws, i) is NOT {
        match parsed_comparison(ws, i + 1) {
            Some((e, k)) => Some((ExprView::Not(Box::new(e)), k)),
            None => None,
        }
    } else {
        parsed_comparison(ws, i)
    }
}

/// The conjunction whose left side `left` ends before the token `i`: as
/// long as `AND` follows, the negation behind it joins what stands to its
/// left.
pub open spec fn parsed_conjunction_from(ws: Seq<Word>, i: int, left: ExprView) -> Option<
    (ExprView, int),
>
    decreases ws.len() - i, 3int,
{
    if i < 0 || i > ws.len() {
        None
    } else if kind_at(ws, i) is AND {
        match parsed_negation(ws, i + 1) {
            Some((right, k)) => if i < k <= ws.len() {
                parsed_conjunction_from(ws, k, ExprView::And(Box::new(left), Box::new(right)))
            } else {
                None
            },
            None => None,
        }
    } else {
        Some((left, i))
    }
}

/// The conjunction that begins with the token `i`.
pub open spec fn parsed_conjunction(ws: Seq<Word>, i: int) -> Option<(ExprView, int)>
    decreases ws.len() - i, 4int,
{
    if i < 0 || i >= ws.len() {
        None
    } else {
        match parsed_negation(ws, i) {
            Some((left, k)) => if i < k <= ws.len() {
                parsed_conjunction_from(ws, k, left)
            } else {
                None
            },
            None => None,
        }
    }
}

/// The filter whose left side `left` ends before the token `i`: as long
/// as `OR` follows, the conjunction behind it joins what stands to its
/// left.
pub open spec fn parsed_filter_from(ws: Seq<Word>, i: int, left: ExprView) -> Option<
    (ExprView, int),
>
    decreases ws.len() - i, 5int,
{
    if i < 0 || i > ws.len() {
        None
    } else if kind_at(ws, i) is OR {
        match parsed_conjunction(ws, i + 1) {
            Some((right, k)) => if i < k <= ws.len() {
                parsed_filter_from(ws, k, ExprView::Or(Box::new(left), Box::new(right)))
            } else {
                None
            },
            None => None,
        }
    } else {
        Some((left, i))
    }
}

/// The filter that begins with the token `i`.
pub open spec fn parsed_filter(ws: Seq<Word>, i: int) -> Option<(ExprView, int)>
    decreases ws.len() - i, 6int,
{
    if i < 0 || i >= ws.len() {
        None
    } else {
        match parsed_conjunction(ws, i) {
            Some((left, k)) => if i < k <= ws.len() {
                parsed_filter_from(ws, k, left)
            } else {
                None
            },
            None => None,
        }
    }
}

/// The selector that begins with the token `i`.
pub open spec fn parsed_selector(ws: Seq<Word>, i: int) -> Option<(SelectorView, int)>
    decreases ws.len() - i, 7int,
{
    if i < 0 || i >= ws.len() {
        None
    } else if kind_at(ws, i) is Period {
        if kind_at(ws, i + 1) is Multiply {
            Some((SelectorView::AnyMember, i + 2))
        } else {
            match parsed_name(ws, i + 1) {
                Some(name) => Some((SelectorView::Member(name), i + 2)),
                None => None,
            }
        }
    } else if kind_at(ws, i) is LBracket {
        parsed_index(ws, i + 1)
    } else if kind_at(ws, i) is Placeholder && kind_at(ws, i + 1) is LParen {
        match parsed_filter(ws, i + 2) {
            Some((e, k)) => if kind_at(ws, k) is RParen {
                Some((SelectorView::Filter(e), k + 1))
            } else {
                None
            },
            None => None,
        }
    } else {
        None
    }
}

/// The selectors that stand from the token `i` on, as many as there are,
/// behind the selectors `before`.
pub open spec fn parsed_selectors_from(ws: Seq<Word>, i: int, before: Seq<SelectorView>) -> Option<
    (Seq<SelectorView>, int),
>
    decreases ws.len() - i, 8int,
{
    if i < 0 || i > ws.len() {
        None
    } else if begins_selector(kind_at(ws, i)) {
        match parsed_selector(ws, i) {
            Some((s, k)) => if i < k <= ws.len() {
                parsed_selectors_from(ws, k, before.push(s))
            } else {
                None
            },
            None => None,
        }
    } else {
        Some((before, i))
    }
}

/// The selectors that stand from the token `i` on.
pub open spec fn parsed_selectors(ws: Seq<Word>, i: int) -> Option<(Seq<SelectorView>, int)>
    decreases ws.len() - i, 9int,
{
    if i < 0 || i >= ws.len() {
        None
    } else {
        parsed_selectors_from(ws, i, Seq::empty())
    }
}

/// The path that the tokens spell: `$`, selectors, and the end of the
/// input.
pub open spec fn parsed_path(ws: Seq<Word>) -> Option<Seq<SelectorView>> {
    if kind_at(ws, 0) is Dollar {
        match parsed_selectors(ws, 1) {
            Some((selectors, k)) => if kind_at(ws, k) is EOI {
                Some(selectors)
            } else {
                None
            },
            None => None,
        }
    } else {
        None
    }
}

/// Every token lies in its text.
pub open spec fn all_valid(ts: Seq<Token>) -> bool {
    forall|k: int| 0 <= k < ts.len() ==> (#[trigger] ts[k]).is_valid()
}

/// The kind of the token `i`, and `EOI` beyond the last token.
fn kind_of(tokens: &Vec<Token>, i: usize) -> (r: TokenKind)
    ensures
        r == kind_at(words(tokens@), i as int),
{
    if i < tokens.len() {
        tokens[i].kind
    } else {
        TokenKind::EOI
    }
}

/// The text of the token `i`.
fn text_of<'a>(tokens: &Vec<Token<'a>>, i: usize) -> (r: &'a str)
    requires
        i < tokens.len(),
        all_valid(tokens@),
    ensures
        r@ == text_at(words(tokens@), i as int),
        bytes_of(r) == tokens[i as int].text_bytes(),
{
    let text = tokens[i].text();
    proof {
        encode_utf8_decode_utf8(text@);
    }
    text
}

/// The span that an error at the token `i` points at: that of the token,
/// that of the last token where `i` lies beyond it, and the empty span at
/// the start where there is no token.
pub open spec fn span_at(tokens: Seq<Token>, i: int) -> Range {
    if 0 <= i < tokens.len() {
        tokens[i].span
    } else if tokens.len() > 0 {
        tokens[tokens.len() - 1].span
    } else {
        Range { start: 0, end: 0 }
    }
}

/// The token at which tokens that spell no path are given up: the first
/// where it is no `$`, the one behind `$` where the selectors cannot be
/// read, and the one behind the selectors where more follows them.
pub open spec fn stuck_at(ws: Seq<Word>) -> int {
    if !(kind_at(ws, 0) is Dollar) {
        0
    } else {
        match parsed_selectors(ws, 1) {
            Some((_, k)) => k,
            None => 1,
        }
    }
}

/// The syntax error of the token `i`, or of the end of the tokens.
fn unexpected(tokens: &Vec<Token>, i: usize) -> (e: ErrorCode)
    ensures
        e.kind == ErrorKind::SyntaxException,
        e.message@ == "unexpected token in the path"@,
        e.span == Some(span_at(tokens@, i as int)),
{
    let span = if i < tokens.len() {
        tokens[i].span
    } else if tokens.len() > 0 {
        tokens[tokens.len() - 1].span
    } else {
        Range { start: 0, end: 0 }
    };
    ErrorCode::syntax_exception("unexpected token in the path".to_owned()).set_span(Some(span))
}

/// Whether the text is `to`.
fn is_to(text: &str) -> (r: bool)
    ensures
        r == spells_to(bytes_of(text)),
{
    let b = text.as_bytes();
    b.len() == 2 && b[0] == 't' as u8 && b[1] == 'o' as u8
}

/// Whether the text is `last`.
fn is_last(text: &str) -> (r: bool)
    ensures
        r == spells_last(bytes_of(text)),
{
    let b = text.as_bytes();
    b.len() == 4 && b[0] == 'l' as u8 && b[1] == 'a' as u8 && b[2] == 's' as u8 && b[3]
        == 't' as u8
}

/// The index that an integer literal spells.
fn parse_index_value(text: &str) -> (r: Option<i64>)
    ensures
        match r {
            Some(v) => index_in(bytes_of(text)) == Some(v as int),
            None => index_in(bytes_of(text)) is None,
        },
{
    match parse_integer(text.as_bytes()) {
        Some(Number::Int64(v)) => Some(v),
        Some(Number::UInt64(v)) => if v <= i64::MAX as u64 {
            Some(v as i64)
        } else {
            None
        },
        _ => None,
    }
}

/// The comparison that a token of the given kind stands for.
fn comparison_for(kind: TokenKind) -> (r: Option<CompareOp>)
    ensures
        r == comparison_of(kind),
{
    match kind {
        TokenKind::DoubleEq => Some(CompareOp::Equal),
        TokenKind::NotEq => Some(CompareOp::NotEqual),
        TokenKind::Lt => Some(CompareOp::Less),
        TokenKind::Gt => Some(CompareOp::Greater),
        TokenKind::Lte => Some(CompareOp::LessOrEqual),
        TokenKind::Gte => Some(CompareOp::GreaterOrEqual),
        _ => None,
    }
}

/// The literal that the token `i` is.
fn parse_literal(tokens: &Vec<Token>, i: usize) -> (r: Option<Literal>)
    requires
        all_valid(tokens@),
    ensures
        match r {
            Some(l) => parsed_literal(words(tokens@), i as int) == Some(l@) && i < tokens.len(),
            None => parsed_literal(words(tokens@), i as int) is None,
        },
{
    if i >= tokens.len() {
        return None;
    }
    match tokens[i].kind {
        TokenKind::NULL => Some(Literal::Null),
        TokenKind::TRUE => Some(Literal::Bool(true)),
        TokenKind::FALSE => Some(Literal::Bool(false)),
        TokenKind::LiteralInteger => match parse_integer(text_of(tokens, i).as_bytes()) {
            Some(n) => Some(Literal::Number(n)),
            None => None,
        },
        TokenKind::LiteralFloat => Some(Literal::Float(text_of(tokens, i).to_owned())),
        TokenKind::QuotedString => match unquote(text_of(tokens, i)) {
            Some(text) => Some(Literal::String(text)),
            None => None,
        },
        _ => None,
    }
}

/// The selector between brackets whose first token is the token `i`.
fn parse_index(tokens: &Vec<Token>, i: usize) -> (r: Option<(Selector, usize)>)
    requires
        all_valid(tokens@),
        i <= tokens.len(),
    ensures
        match r {
            Some((s, k)) => parsed_index(words(tokens@), i as int) == Some(
                (s@, k as int),
            ) && i < k <= tokens.len(),
            None => parsed_index(words(tokens@), i as int) is None,
        },
{
    let n = tokens.len();
    if i >= n {
        return None;
    }
    match tokens[i].kind {
        TokenKind::Multiply => if kind_of(tokens, i + 1) == TokenKind::RBracket {
            Some((Selector::AnyIndex, i + 2))
        } else {
            None
        },
        TokenKind::LiteralInteger => {
            let first = match parse_index_value(text_of(tokens, i)) {
                Some(first) => first,
                None => {
                    return None;
                },
            };
            match kind_of(tokens, i + 1) {
                TokenKind::RBracket => Some((Selector::Index(first), i + 2)),
                TokenKind::Ident => {
                    if n - i < 4 || !is_to(text_of(tokens, i + 1)) || kind_of(tokens, i + 3)
                        != TokenKind::RBracket {
                        return None;
                    }
                    match tokens[i + 2].kind {
                        TokenKind::LiteralInteger => match parse_index_value(
                            text_of(tokens, i + 2),
                        ) {
                            Some(second) => Some((Selector::Range(first, second), i + 4)),
                            None => None,
                        },
                        TokenKind::Ident => if is_last(text_of(tokens, i + 2)) {
                            Some((Selector::RangeToLast(first), i + 4))
                        } else {
                            None
                        },
                        _ => None,
                    }
                },
                _ => None,
            }
        },
        _ => None,
    }
}

/// The name that the token `i` gives a member.
fn parse_name(tokens: &Vec<Token>, i: usize) -> (r: Option<String>)
    requires
        all_valid(tokens@),
    ensures
        match r {
            Some(name) => parsed_name(words(tokens@), i as int) == Some(name@) && i < tokens.len(),
            None => parsed_name(words(tokens@), i as int) is None,
        },
{
    if i >= tokens.len() {
        return None;
    }
    match tokens[i].kind {
        TokenKind::Ident => Some(text_of(tokens, i).to_owned()),
        TokenKind::QuotedString => unquote(text_of(tokens, i)),
        _ => None,
    }
}

/// The term that begins with the token `i`.
fn parse_term(tokens: &Vec<Token>, i: usize) -> (r: Option<(Expr, usize)>)
    requires
        all_valid(tokens@),
        i <= tokens.len(),
    ensures
        match r {
            Some((e, k)) => parsed_term(words(tokens@), i as int) == Some(
                (e@, k as int),
            ) && i < k <= tokens.len(),
            None => parsed_term(words(tokens@), i as int) is None,
        },
    decreases tokens.len() - i, 0int,
{
    if i >= tokens.len() {
        return None;
    }
    match tokens[i].kind {
        TokenKind::AtSign => match parse_selectors(tokens, i + 1) {
            Some((selectors, k)) => {
                let e = Expr::Path(selectors);
                proof {
                    lemma_expr_view(e);
                }
                Some((e, k))
            },
            None => None,
        },
        TokenKind::LParen => match parse_filter(tokens, i + 1) {
            Some((e, k)) => if kind_of(tokens, k) == TokenKind::RParen {
                Some((e, k + 1))
            } else {
                None
            },
            None => None,
        },
        _ => match parse_literal(tokens, i) {
            Some(l) => {
                let e = Expr::Literal(l);
                proof {
                    lemma_expr_view(e);
                }
                Some((e, i + 1))
            },
            None => None,
        },
    }
}

/// The comparison that begins with the token `i`.
fn parse_comparison(tokens: &Vec<Token>, i: usize) -> (r: Option<(Expr, usize)>)
    requires
        all_valid(tokens@),
        i <= tokens.len(),
    ensures
        match r {
            Some((e, k)) => parsed_comparison(words(tokens@), i as int) == Some(
                (e@, k as int),
            ) && i < k <= tokens.len(),
            None => parsed_comparison(words(tokens@), i as int) is None,
        },
    decreases tokens.len() - i, 1int,
{
    if i >= tokens.len() {
        return None;
    }
    let (left, k) = match parse_term(tokens, i) {
        Some(found) => found,
        None => {
            return None;
        },
    };
    match comparison_for(kind_of(tokens, k)) {
        Some(op) => match parse_term(tokens, k + 1) {
            Some((right, m)) => {
                let ghost l = left@;
                let ghost r = right@;
                let e = Expr::Compare(op, Box::new(left), Box::new(right));
                proof {
                    lemma_expr_view(e);
                    assert(e@ == ExprView::Compare(op, Box::new(l), Box::new(r)));
                }
                Some((e, m))
            },
            None => None,
        },
        None => Some((left, k)),
    }
}

/// The negation that begins with the token `i`.
fn parse_negation(tokens: &Vec<Token>, i: usize) -> (r: Option<(Expr, usize)>)
    requires
        all_valid(tokens@),
        i <= tokens.len(),
    ensures
        match r {
            Some((e, k)) => parsed_negation(words(tokens@), i as int) == Some(
                (e@, k as int),
            ) && i < k <= tokens.len(),
            None => parsed_negation(words(tokens@), i as int) is None,
        },
    decreases tokens.len() - i, 2int,
{
    if i >= tokens.len() {
        return None;
    }
    if kind_of(tokens, i) == TokenKind::NOT {
        match parse_comparison(tokens, i + 1) {
            Some((inner, k)) => {
                let ghost v = inner@;
                let e = Expr::Not(Box::new(inner));
                proof {
                    lemma_expr_view(e);
                    assert(e@ == ExprView::Not(Box::new(v)));
                }
                Some((e, k))
            },
            None => None,
        }
    } else {
        parse_comparison(tokens, i)
    }
}

/// The conjunction that begins with the token `i`.
fn parse_conjunction(tokens: &Vec<Token>, i: usize) -> (r: Option<(Expr, usize)>)
    requires
        all_valid(tokens@),
        i <= tokens.len(),
    ensures
        match r {
            Some((e, k)) => parsed_conjunction(words(tokens@), i as int) == Some(
                (e@, k as int),
            ) && i < k <= tokens.len(),
            None => parsed_conjunction(words(tokens@), i as int) is None,
        },
    decreases tokens.len() - i, 4int,
{
    if i >= tokens.len() {
        return None;
    }
    let (first, after) = match parse_negation(tokens, i) {
        Some(found) => found,
        None => {
            return None;
        },
    };
    let mut left = first;
    let mut k = after;
    while kind_of(tokens, k) == TokenKind::AND
        invariant
            all_valid(tokens@),
            i < k <= tokens.len(),
            parsed_conjunction(words(tokens@), i as int) == parsed_conjunction_from(words(tokens@),
                k as int,
                left@,
            ),
        decreases tokens.len() - k,
    {
        match parse_negation(tokens, k + 1) {
            Some((right, m)) => {
                let ghost l = left@;
                let ghost r = right@;
                left = Expr::And(Box::new(left), Box::new(right));
                proof {
                    lemma_expr_view(left);
                    assert(left@ == ExprView::And(Box::new(l), Box::new(r)));
                }
                k = m;
            },
            None => {
                return None;
            },
        }
    }
    Some((left, k))
}

/// The filter that begins with the token `i`.
fn parse_filter(tokens: &Vec<Token>, i: usize) -> (r: Option<(Expr, usize)>)
    requires
        all_valid(tokens@),
        i <= tokens.len(),
    ensures
        match r {
            Some((e, k)) => parsed_filter(words(tokens@), i as int) == Some(
                (e@, k as int),
            ) && i < k <= tokens.len(),
            None => parsed_filter(words(tokens@), i as int) is None,
        },
    decreases tokens.len() - i, 6int,
{
    if i >= tokens.len() {
        return None;
    }
    let (first, after) = match parse_conjunction(tokens, i) {
        Some(found) => found,
        None => {
            return None;
        },
    };
    let mut left = first;
    let mut k = after;
    while kind_of(tokens, k) == TokenKind::OR
        invariant
            all_valid(tokens@),
            i < k <= tokens.len(),
            parsed_filter(words(tokens@), i as int) == parsed_filter_from(
                words(tokens@),
                k as int,
                left@,
            ),
        decreases tokens.len() - k,
    {
        match parse_conjunction(tokens, k + 1) {
            Some((right, m)) => {
                let ghost l = left@;
                let ghost r = right@;
                left = Expr::Or(Box::new(left), Box::new(right));
                proof {
                    lemma_expr_view(left);
                    assert(left@ == ExprView::Or(Box::new(l), Box::new(r)));
                }
                k = m;
            },
            None => {
                return None;
            },
        }
    }
    Some((left, k))
}

/// The member selector that begins with the `.` at `i`.
fn parse_member(tokens: &Vec<Token>, i: usize) -> (r: Option<(Selector, usize)>)
    requires
        all_valid(tokens@),
        i < tokens.len(),
        kind_at(words(tokens@), i as int) is Period,
    ensures
        match r {
            Some((s, k)) => parsed_selector(words(tokens@), i as int) == Some(
                (s@, k as int),
            ) && i < k <= tokens.len(),
            None => parsed_selector(words(tokens@), i as int) is None,
        },
{
    if kind_of(tokens, i + 1) == TokenKind::Multiply {
        Some((Selector::AnyMember, i + 2))
    } else {
        match parse_name(tokens, i + 1) {
            Some(name) => Some((Selector::Member(name), i + 2)),
            None => None,
        }
    }
}

/// The selector that begins with the token `i`.
fn parse_selector(tokens: &Vec<Token>, i: usize) -> (r: Option<(Selector, usize)>)
    requires
        all_valid(tokens@),
        i <= tokens.len(),
    ensures
        match r {
            Some((s, k)) => parsed_selector(words(tokens@), i as int) == Some(
                (s@, k as int),
            ) && i < k <= tokens.len(),
            None => parsed_selector(words(tokens@), i as int) is None,
        },
    decreases tokens.len() - i, 7int,
{
    if i >= tokens.len() {
        return None;
    }
    let kind = kind_of(tokens, i);
    if kind == TokenKind::Period {
        parse_member(tokens, i)
    } else if kind == TokenKind::LBracket {
        parse_index(tokens, i + 1)
    } else if kind == TokenKind::Placeholder {
        if kind_of(tokens, i + 1) != TokenKind::LParen {
            return None;
        }
        match parse_filter(tokens, i + 2) {
            Some((e, k)) => if kind_of(tokens, k) == TokenKind::RParen {
                let ghost v = e@;
                let s = Selector::Filter(e);
                assert(s@ == SelectorView::Filter(v));
                Some((s, k + 1))
            } else {
                None
            },
            None => None,
        }
    } else {
        None
    }
}

/// The selectors that stand from the token `i` on.
fn parse_selectors(tokens: &Vec<Token>, i: usize) -> (r: Option<(Vec<Selector>, usize)>)
    requires
        all_valid(tokens@),
        i <= tokens.len(),
    ensures
        match r {
            Some((selectors, k)) => parsed_selectors(words(tokens@), i as int) == Some(
                (selector_views(selectors, selectors.len() as int), k as int),
            ) && i <= k <= tokens.len() && i < tokens.len(),
            None => parsed_selectors(words(tokens@), i as int) is None,
        },
    decreases tokens.len() - i, 9int,
{
    if i >= tokens.len() {
        return None;
    }
    let mut selectors: Vec<Selector> = Vec::new();
    let mut k = i;
    loop
        invariant
            all_valid(tokens@),
            i <= k <= tokens.len(),
            i < tokens.len(),
            parsed_selectors(words(tokens@), i as int) == parsed_selectors_from(words(tokens@),
                k as int,
                selector_views(selectors, selectors.len() as int),
            ),
        decreases tokens.len() - k,
    {
        let kind = kind_of(tokens, k);
        if !(kind == TokenKind::Period || kind == TokenKind::LBracket || kind
            == TokenKind::Placeholder) {
            return Some((selectors, k));
        }
        match parse_selector(tokens, k) {
            Some((s, m)) => {
                let ghost before = selector_views(selectors, selectors.len() as int);
                let ghost v = s@;
                let ghost old_selectors = selectors;
                selectors.push(s);
                proof {
                    lemma_selector_views(old_selectors, old_selectors.len() as int);
                    lemma_selector_views(selectors, selectors.len() as int);
                    assert(selector_views(selectors, selectors.len() as int) =~= before.push(v));
                }
                k = m;
            },
            None => {
                return None;
            },
        }
    }
}

/// The path that the tokens spell.
pub fn parse_tokens(tokens: &Vec<Token>) -> (r: Result<JsonPath, ErrorCode>)
    requires
        all_valid(tokens@),
    ensures
        match r {
            Ok(path) => parsed_path(words(tokens@)) == Some(path@),
            Err(e) => {
                &&& parsed_path(words(tokens@)) is None
                &&& e.kind == ErrorKind::SyntaxException
                &&& e.message@ == "unexpected token in the path"@
                &&& e.span == Some(span_at(tokens@, stuck_at(words(tokens@))))
            },
        },
{
    if kind_of(tokens, 0) != TokenKind::Dollar {
        return Err(unexpected(tokens, 0));
    }
    match parse_selectors(tokens, 1) {
        Some((selectors, k)) => if kind_of(tokens, k) == TokenKind::EOI {
            Ok(JsonPath { selectors })
        } else {
            Err(unexpected(tokens, k))
        },
        None => Err(unexpected(tokens, 1)),
    }
}

/// What the grammar reads of the tokens of a text is the same for every row
/// of its tokens.
pub proof fn law_words_unique(source: &str, a: Seq<Token>, b: Seq<Token>)
    requires
        is_tokenization(source, a),
        is_tokenization(source, b),
    ensures
        words(a) == words(b),
{
    law_tokenization_unique(source, a, b);
    assert forall|k: int| 0 <= k < a.len() implies #[trigger] words(a)[k] == words(b)[k] by {
        assert(is_linked(source, a, k));
        assert(is_linked(source, b, k));
        lemma_same_bytes(a[k].source, source);
        lemma_same_bytes(b[k].source, source);
    }
    assert(words(a) =~= words(b));
}

/// The path that the text spells, where it has tokens: the path that they
/// spell.
pub open spec fn path_in(source: &str) -> Option<Seq<SelectorView>> {
    if exists|tokens: Seq<Token>| is_tokenization(source, tokens) {
        parsed_path(words(choose|tokens: Seq<Token>| is_tokenization(source, tokens)))
    } else {
        None
    }
}

/// The span of the token at which the tokens of a text are given up, where
/// the text has tokens and they spell no path.
pub open spec fn stuck_span(source: &str) -> Range {
    let tokens = choose|tokens: Seq<Token>| is_tokenization(source, tokens);
    span_at(tokens, stuck_at(words(tokens)))
}

/// The path that the text spells: the path that its tokens spell, and a
/// syntax error where the text has a place at which no token starts or its
/// tokens spell no path. The error of a place at which no token starts
/// points from that place to the end of the text; the error of tokens that
/// spell no path points at the token at which they are given up.
pub fn parse_json_path(source: &str) -> (r: Result<JsonPath, ErrorCode>)
    ensures
        match r {
            Ok(path) => path_in(source) == Some(path@),
            Err(e) => {
                &&& e.kind == ErrorKind::SyntaxException
                &&& e.span matches Some(span)
                &&& path_in(source) is None
                &&& if exists|tokens: Seq<Token>| is_tokenization(source, tokens) {
                    &&& span == stuck_span(source)
                    &&& e.message@ == "unexpected token in the path"@
                } else {
                    &&& fails_at(source, span.start as int)
                    &&& span.end == bytes_of(source).len()
                    &&& e.message@ == "unable to recognize the rest tokens"@
                }
            },
        },
{
    let tokens = match tokenize(source) {
        Ok(tokens) => tokens,
        Err(e) => {
            proof {
                lemma_no_tokens_where_it_fails(source, e.span->0.start as int);
            }
            return Err(e);
        },
    };
    proof {
        assert forall|k: int| 0 <= k < tokens.len() implies (#[trigger] tokens@[k]).is_valid() by {
            assert(is_linked(source, tokens@, k));
        }
        let chosen = choose|tokens: Seq<Token>| is_tokenization(source, tokens);
        law_words_unique(source, tokens@, chosen);
        law_tokenization_unique(source, tokens@, chosen);
        let at = stuck_at(words(tokens@));
        assert(span_at(tokens@, at) == span_at(chosen, at));
    }
    parse_tokens(&tokens)
}

/// A text with a place at which no token starts has no row of tokens.
pub proof fn lemma_no_tokens_where_it_fails(source: &str, at: int)
    requires
        fails_at(source, at),
    ensures
        !(exists|tokens: Seq<Token>| is_tokenization(source, tokens)),
{
    if exists|tokens: Seq<Token>| is_tokenization(source, tokens) {
        let whole = choose|tokens: Seq<Token>| is_tokenization(source, tokens);
        let run = choose|tokens: Seq<Token>|
            {
                &&& #[trigger] is_token_run(source, tokens, tokens.len() as int)
                &&& is_token_start(
                    bytes_of(source),
                    reading_from(tokens, tokens.len() as int),
                    at,
                )
                &&& at < bytes_of(source).len()
                &&& no_token_at(bytes_of(source), at)
            };
        lemma_run_is_a_beginning(source, whole, run, run.len() as int);
        let n = run.len() as int;
        // The token of the whole row behind the run starts at `at`.
        assert(is_linked(source, whole, n));
        lemma_token_start_unique(
            bytes_of(source),
            reading_from(whole, n),
            whole[n].span.start as int,
            at,
        );
        if !(whole[n].kind is EOI) {
            assert(lexeme_at(
                bytes_of(source),
                at,
                whole[n].span.end as int,
                whole[n].kind,
            ));
        }
    }
}

/// A run of tokens of a text is the beginning of every row of its tokens:
/// the row is longer, and its first tokens have the kinds and the spans of
/// the run.
pub proof fn lemma_run_is_a_beginning(source: &str, whole: Seq<Token>, run: Seq<Token>, n: int)
    requires
        is_tokenization(source, whole),
        is_token_run(source, run, run.len() as int),
        0 <= n <= run.len(),
    ensures
        n < whole.len(),
        forall|k: int|
            0 <= k < n ==> (#[trigger] whole[k]).kind == run[k].kind && whole[k].span
                == run[k].span,
        reading_from(whole, n) == reading_from(run, n),
    decreases n,
{
    if n > 0 {
        lemma_run_is_a_beginning(source, whole, run, n - 1);
        let k = n - 1;
        assert(is_linked(source, run, k));
        assert(!(run[k].kind is EOI));
        assert(is_linked(source, whole, k));
        let input = bytes_of(source);
        lemma_token_start_unique(
            input,
            reading_from(whole, k),
            whole[k].span.start as int,
            run[k].span.start as int,
        );
        let start = run[k].span.start as int;
        if whole[k].kind is EOI {
            assert(lexeme_at(input, start, run[k].span.end as int, run[k].kind));
        } else {
            lemma_next_token_unique(
                input,
                start,
                whole[k].span.end as int,
                whole[k].kind,
                run[k].span.end as int,
                run[k].kind,
            );
        }
        assert(k < whole.len() - 1);
    }
}

} // verus!
