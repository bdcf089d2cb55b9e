//! Finding the token that starts at a given byte.
use crate::jsonpath::parser::lexeme::{
    all_digits, is_blank, is_digit, is_exponent, is_float, is_float_split, is_name, is_name_part,
    is_name_start, is_next_token, is_quote, is_quoted_body, is_word_spelling, lemma_spelling_begins,
    lexeme_at, may_begin, no_token_at, sign_text, spells, upper, word_text,
};
use crate::jsonpath::parser::token::TokenKind;
use vstd::prelude::*;

verus! {

/// Whether the byte is a blank.
pub(crate) fn is_blank_byte(b: u8) -> (r: bool)
    ensures
        r == is_blank(b),
{
    b == ' ' as u8 || b == '\t' as u8 || b == '\n' as u8 || b == 0x0c || b == '\r' as u8
}

fn digit(b: u8) -> (r: bool)
    ensures
        r == is_digit(b),
{
    '0' as u8 <= b && b <= '9' as u8
}

fn name_start(b: u8) -> (r: bool)
    ensures
        r == is_name_start(b),
{
    ('a' as u8 <= b && b <= 'z' as u8) || ('A' as u8 <= b && b <= 'Z' as u8) || b == '_' as u8
}

fn name_part(b: u8) -> (r: bool)
    ensures
        r == is_name_part(b),
{
    name_start(b) || digit(b) || b == '$' as u8
}

/// The end of the longest run of digits that starts at `from`.
fn digits_end(input: &[u8], from: usize) -> (end: usize)
    requires
        from <= input.len(),
    ensures
        from <= end <= input.len(),
        all_digits(input@.subrange(from as int, end as int)),
        end == input.len() || !is_digit(input[end as int]),
{
    let mut end = from;
    while end < input.len() && digit(input[end])
        invariant
            from <= end <= input.len(),
            all_digits(input@.subrange(from as int, end as int)),
        decreases input.len() - end,
    {
        end += 1;
        assert forall|i: int| 0 <= i < end - from implies is_digit(
            #[trigger] input@.subrange(from as int, end as int)[i],
        ) by {
            if i < end - from - 1 {
                assert(input@.subrange(from as int, end - 1)[i] == input[from + i]);
            }
        }
    }
    end
}

/// A run of digits that starts at `from` ends no later than the first byte
/// at or after `from` that is no digit.
proof fn lemma_digits_bounded(input: Seq<u8>, from: int, stop: int, e: int)
    requires
        0 <= from <= stop <= input.len(),
        from <= e <= input.len(),
        stop == input.len() || !is_digit(input[stop]),
        all_digits(input.subrange(from, e)),
    ensures
        e <= stop,
{
    if e > stop {
        assert(input.subrange(from, e)[stop - from] == input[stop]);
    }
}

/// The end of the longest exponent that starts at `from`, if there is one.
fn exponent_end(input: &[u8], from: usize) -> (r: Option<usize>)
    requires
        from <= input.len(),
    ensures
        match r {
            Some(end) => {
                &&& from < end <= input.len()
                &&& is_exponent(input@.subrange(from as int, end as int))
                &&& forall|e: int|
                    from <= e <= input.len() && is_exponent(
                        #[trigger] input@.subrange(from as int, e),
                    ) ==> e <= end
            },
            None => forall|e: int|
                from <= e <= input.len() ==> !is_exponent(
                    #[trigger] input@.subrange(from as int, e),
                ),
        },
{
    let n = input.len();
    if from < n && (input[from] == 'e' as u8 || input[from] == 'E' as u8) {
        let signed = from + 1 < n && (input[from + 1] == '+' as u8 || input[from + 1] == '-' as u8);
        let first: usize = if signed {
            from + 2
        } else {
            from + 1
        };
        if first < n && digit(input[first]) {
            let end = digits_end(input, first);
            proof {
                let s = input@.subrange(from as int, end as int);
                assert(s.skip(first - from) =~= input@.subrange(first as int, end as int));
                assert forall|e: int|
                    from <= e <= input.len() && is_exponent(
                        #[trigger] input@.subrange(from as int, e),
                    ) implies e <= end by {
                    let t = input@.subrange(from as int, e);
                    assert(t[1] == input[from + 1]);
                    assert(t.skip(first - from) =~= input@.subrange(first as int, e));
                    lemma_digits_bounded(input@, first as int, end as int, e);
                }
            }
            return Some(end);
        }
        proof {
            assert forall|e: int| from <= e <= input.len() implies !is_exponent(
                #[trigger] input@.subrange(from as int, e),
            ) by {
                let t = input@.subrange(from as int, e);
                if is_exponent(t) {
                    assert(t[1] == input[from + 1]);
                    assert(t.skip(first - from)[0] == input[first as int]);
                }
            }
        }
        return None;
    }
    proof {
        assert forall|e: int| from <= e <= input.len() implies !is_exponent(
            #[trigger] input@.subrange(from as int, e),
        ) by {
            let t = input@.subrange(from as int, e);
            if is_exponent(t) {
                assert(t[0] == input[from as int]);
            }
        }
    }
    None
}

/// In a float literal that starts where a run of digits starts, and in which
/// a `.` follows that run, the whole part is that run, the fraction ends no
/// later than the digits after the `.` do, and an exponent starts only where
/// they end.
proof fn lemma_float_with_dot(input: Seq<u8>, start: int, dot: int, frac: int, e: int)
    requires
        0 <= start <= dot < frac <= input.len(),
        all_digits(input.subrange(start, dot)),
        input[dot] == '.' as u8,
        all_digits(input.subrange(dot + 1, frac)),
        frac == input.len() || !is_digit(input[frac]),
        start <= e <= input.len(),
        is_float(input.subrange(start, e)),
    ensures
        dot < e,
        e <= frac || is_exponent(input.subrange(frac, e)),
        start + 2 <= frac,
{
    let s = input.subrange(start, e);
    let (i, j) = choose|i: int, j: int| is_float_split(s, i, j);
    assert(is_float_split(s, i, j));
    if i > dot - start {
        assert(s.subrange(0, i)[dot - start] == input[dot]);
    }
    if i < dot - start {
        assert(input.subrange(start, dot)[i] == s[i]);
    }
    if i == j {
        assert(s.skip(i)[0] == s[i]);
    } else {
        assert(s.subrange(i + 1, j) =~= input.subrange(dot + 1, start + j));
        lemma_digits_bounded(input, dot + 1, frac, start + j);
        if j < s.len() {
            assert(s.skip(j) =~= input.subrange(start + j, e));
            assert(s.skip(j)[0] == input[start + j]);
            if start + j < frac {
                assert(input.subrange(dot + 1, frac)[start + j - dot - 1] == input[start + j]);
            }
        }
    }
}

/// In a float literal that starts where a run of digits starts, and in which
/// no `.` follows that run, an exponent follows it.
proof fn lemma_float_without_dot(input: Seq<u8>, start: int, stop: int, e: int)
    requires
        0 <= start <= stop <= input.len(),
        all_digits(input.subrange(start, stop)),
        stop == input.len() || (!is_digit(input[stop]) && input[stop] != '.' as u8),
        start <= e <= input.len(),
        is_float(input.subrange(start, e)),
    ensures
        start < stop < e,
        is_exponent(input.subrange(stop, e)),
{
    let s = input.subrange(start, e);
    let (i, j) = choose|i: int, j: int| is_float_split(s, i, j);
    assert(is_float_split(s, i, j));
    if i > stop - start {
        assert(s.subrange(0, i)[stop - start] == input[stop]);
    }
    if i < stop - start && i < s.len() {
        assert(input.subrange(start, stop)[i] == s[i]);
    }
    if i == j {
        assert(s.skip(i)[0] == s[i]);
        assert(s.skip(i) =~= input.subrange(stop, e));
    }
}

/// The end of the float literal whose whole part is the digits
/// `start..dot` and whose `.` stands at `dot`.
fn float_end(input: &[u8], start: usize, dot: usize) -> (end: usize)
    requires
        start <= dot < input.len(),
        all_digits(input@.subrange(start as int, dot as int)),
        input[dot as int] == '.' as u8,
        start < dot || (dot + 1 < input.len() && is_digit(input[dot + 1])),
    ensures
        dot < end <= input.len(),
        is_float(input@.subrange(start as int, end as int)),
        forall|e: int|
            start <= e <= input.len() && is_float(#[trigger] input@.subrange(start as int, e))
                ==> e <= end,
{
    let frac = digits_end(input, dot + 1);
    let tail = exponent_end(input, frac);
    let end = match tail {
        Some(end) => end,
        None => frac,
    };
    proof {
        let s = input@.subrange(start as int, end as int);
        assert(s.subrange(0, dot - start) =~= input@.subrange(start as int, dot as int));
        assert(s.subrange(dot - start + 1, frac - start) =~= input@.subrange(
            dot + 1,
            frac as int,
        ));
        assert(s.skip(frac - start) =~= input@.subrange(frac as int, end as int));
        if start == dot {
            assert(input@.subrange(dot + 1, frac as int).len() > 0) by {
                if frac == dot + 1 {
                }
            }
        }
        assert(is_float_split(s, dot - start, frac - start));
        assert forall|e: int|
            start <= e <= input.len() && is_float(
                #[trigger] input@.subrange(start as int, e),
            ) implies e <= end by {
            lemma_float_with_dot(input@, start as int, dot as int, frac as int, e);
        }
    }
    end
}

/// The number that starts with the digit at `start`.
fn number(input: &[u8], start: usize) -> (r: (TokenKind, usize))
    requires
        start < input.len(),
        is_digit(input[start as int]),
    ensures
        is_next_token(input@, start as int, r.1 as int, r.0),
{
    let stop = digits_end(input, start);
    assert(stop > start);
    let (kind, end) = if stop < input.len() && input[stop] == '.' as u8 {
        (TokenKind::LiteralFloat, float_end(input, start, stop))
    } else {
        match exponent_end(input, stop) {
            Some(end) => {
                proof {
                    let s = input@.subrange(start as int, end as int);
                    assert(s.subrange(0, stop - start) =~= input@.subrange(
                        start as int,
                        stop as int,
                    ));
                    assert(s.skip(stop - start) =~= input@.subrange(stop as int, end as int));
                    assert(is_float_split(s, stop - start, stop - start));
                }
                (TokenKind::LiteralFloat, end)
            },
            None => {
                assert(input@.subrange(start as int, stop as int)[0] == input[start as int]);
                (TokenKind::LiteralInteger, stop)
            },
        }
    };
    proof {
        assert forall|other: TokenKind, e: int| #[trigger]
            lexeme_at(input@, start as int, e, other) implies e < end || (e == end && (other
            == kind || other == TokenKind::Ident)) by {
            let s = input@.subrange(start as int, e);
            lemma_spelling_begins(other, s);
            assert(s[0] == input[start as int]);
            if other is LiteralInteger {
                lemma_digits_bounded(input@, start as int, stop as int, e);
            } else if other is LiteralFloat {
                if !(stop < input.len() && input[stop as int] == '.' as u8) {
                    lemma_float_without_dot(input@, start as int, stop as int, e);
                }
            } else {
                assert(!may_begin(other, input[start as int]));
            }
        }
    }
    (kind, end)
}

/// What the first byte of a stretch of input says about whether the stretch
/// is the inside of a string.
proof fn lemma_body_step(input: Seq<u8>, i: int, e: int, quote: u8)
    requires
        0 <= i < e <= input.len(),
    ensures
        is_quoted_body(input.subrange(i, e), quote) == (if input[i] == '\\' as u8 {
            e >= i + 2 && input[i + 1] != '\n' as u8 && is_quoted_body(
                input.subrange(i + 2, e),
                quote,
            )
        } else if input[i] == quote {
            e >= i + 2 && input[i + 1] == quote && is_quoted_body(input.subrange(i + 2, e), quote)
        } else {
            is_quoted_body(input.subrange(i + 1, e), quote)
        }),
{
    let s = input.subrange(i, e);
    assert(s[0] == input[i]);
    assert(s.skip(1) =~= input.subrange(i + 1, e));
    if e >= i + 2 {
        assert(s[1] == input[i + 1]);
        assert(s.skip(2) =~= input.subrange(i + 2, e));
    }
}

/// The end of the longest string in backticks that starts at `start`.
fn backticked_end(input: &[u8], start: usize) -> (r: Option<usize>)
    requires
        start < input.len(),
        input[start as int] == '`' as u8,
    ensures
        match r {
            Some(end) => {
                &&& lexeme_at(input@, start as int, end as int, TokenKind::QuotedString)
                &&& forall|e: int| #[trigger]
                    lexeme_at(input@, start as int, e, TokenKind::QuotedString) ==> e <= end
            },
            None => forall|e: int|
                !#[trigger] lexeme_at(input@, start as int, e, TokenKind::QuotedString),
        },
{
    let mut i = start + 1;
    while i < input.len() && input[i] != '`' as u8
        invariant
            start < i <= input.len(),
            forall|k: int| start < k < i ==> input[k] != '`' as u8,
        decreases input.len() - i,
    {
        i += 1;
    }
    proof {
        assert forall|e: int| #[trigger]
            lexeme_at(input@, start as int, e, TokenKind::QuotedString) implies e <= i + 1 && i
            < input.len() by {
            let s = input@.subrange(start as int, e);
            assert(s[0] == input[start as int]);
            assert(s[e - start - 1] == input[e - 1]);
            if e - 1 > i {
                assert(s[i - start] == input[i as int]);
            }
        }
    }
    if i < input.len() {
        proof {
            let s = input@.subrange(start as int, i + 1);
            assert forall|k: int| 1 <= k < s.len() - 1 implies #[trigger] s[k] != '`' as u8 by {
                assert(s[k] == input[start + k]);
            }
        }
        Some(i + 1)
    } else {
        None
    }
}

/// The end of the longest string in `"` or `'` that starts at `start`.
fn quoted_end(input: &[u8], start: usize) -> (r: Option<usize>)
    requires
        start < input.len(),
        input[start as int] == '"' as u8 || input[start as int] == '\'' as u8,
    ensures
        match r {
            Some(end) => {
                &&& lexeme_at(input@, start as int, end as int, TokenKind::QuotedString)
                &&& forall|e: int| #[trigger]
                    lexeme_at(input@, start as int, e, TokenKind::QuotedString) ==> e <= end
            },
            None => forall|e: int|
                !#[trigger] lexeme_at(input@, start as int, e, TokenKind::QuotedString),
        },
{
    let quote = input[start];
    let n = input.len();
    let ghost inside = start + 1;
    // The end of the longest string that closes before `i`.
    let mut best: Option<usize> = None;
    let mut i = start + 1;
    let mut open = true;
    while open && i < n
        invariant
            n == input.len(),
            start < n,
            inside == start + 1,
            quote == input[start as int],
            quote == '"' as u8 || quote == '\'' as u8,
            inside <= i <= n,
            open ==> forall|e: int|
                i <= e <= n ==> is_quoted_body(#[trigger] input@.subrange(inside, e), quote)
                    == is_quoted_body(input@.subrange(i as int, e), quote),
            !open ==> forall|e: int|
                i <= e < n && input[e] == quote && is_quoted_body(
                    #[trigger] input@.subrange(inside, e),
                    quote,
                ) ==> best is Some && e < best->0,
            forall|e: int|
                inside <= e < i && input[e] == quote && is_quoted_body(
                    #[trigger] input@.subrange(inside, e),
                    quote,
                ) ==> best is Some && e < best->0,
            best matches Some(b) ==> inside < b <= n && b <= i + 1 && input[b - 1] == quote
                && is_quoted_body(input@.subrange(inside, b - 1), quote),
        decreases n - i, open as int,
    {
        let b = input[i];
        proof {
            assert forall|e: int| i < e <= n implies is_quoted_body(
                #[trigger] input@.subrange(inside, e),
                quote,
            ) == (if b == '\\' as u8 {
                e >= i + 2 && input[i + 1] != '\n' as u8 && is_quoted_body(
                    input@.subrange(i + 2, e),
                    quote,
                )
            } else if b == quote {
                e >= i + 2 && input[i + 1] == quote && is_quoted_body(
                    input@.subrange(i + 2, e),
                    quote,
                )
            } else {
                is_quoted_body(input@.subrange(i + 1, e), quote)
            }) by {
                lemma_body_step(input@, i as int, e, quote);
            }
            assert(is_quoted_body(input@.subrange(inside, i as int), quote)) by {
                assert(input@.subrange(i as int, i as int).len() == 0);
            }
        }
        if b == quote {
            best = Some(i + 1);
            if i + 1 < n && input[i + 1] == quote {
                i += 2;
            } else {
                open = false;
            }
        } else if b == '\\' as u8 {
            if i + 1 < n && input[i + 1] != '\n' as u8 {
                i += 2;
            } else {
                open = false;
            }
        } else {
            i += 1;
        }
    }
    proof {
        assert forall|e: int| #[trigger]
            lexeme_at(input@, start as int, e, TokenKind::QuotedString) implies best is Some && e
            <= best->0 by {
            let s = input@.subrange(start as int, e);
            assert(s[0] == input[start as int]);
            assert(s[e - start - 1] == input[e - 1]);
            assert(s.subrange(1, s.len() - 1) =~= input@.subrange(inside, e - 1));
        }
        if let Some(b) = best {
            let s = input@.subrange(start as int, b as int);
            assert(s.subrange(1, s.len() - 1) =~= input@.subrange(inside, b - 1));
        }
    }
    best
}

fn up(b: u8) -> (r: u8)
    ensures
        r == upper(b),
{
    if 'a' as u8 <= b && b <= 'z' as u8 {
        b - 32
    } else {
        b
    }
}

/// A reserved word, however it is cased, is spelled like a name.
proof fn lemma_word_is_name(kind: TokenKind, s: Seq<u8>)
    requires
        is_word_spelling(kind, s),
    ensures
        is_name(s),
{
    assert forall|i: int| 0 <= i < s.len() implies is_name_start(#[trigger] s[i]) by {
        assert(upper(s[i]) == word_text(kind)[i]);
    }
}

/// No two reserved words are spelled alike.
proof fn lemma_word_unique(a: TokenKind, b: TokenKind, s: Seq<u8>)
    requires
        is_word_spelling(a, s),
        is_word_spelling(b, s),
    ensures
        a == b,
{
    assert(upper(s[0]) == word_text(a)[0]);
    assert(upper(s[1]) == word_text(a)[1]);
    if s.len() > 2 {
        assert(upper(s[2]) == word_text(a)[2]);
    }
}

/// Whether the bytes `start..end` spell the reserved word `kind`, whose
/// upper-case spelling is `text`.
fn spelled<const N: usize>(
    input: &[u8],
    start: usize,
    end: usize,
    text: &[u8; N],
    Ghost(kind): Ghost<TokenKind>,
) -> (r: bool)
    requires
        start <= end <= input.len(),
        kind.is_word(),
        text@ =~= word_text(kind),
    ensures
        r == is_word_spelling(kind, input@.subrange(start as int, end as int)),
{
    if end - start != N {
        return false;
    }
    let ghost s = input@.subrange(start as int, end as int);
    let mut i: usize = 0;
    while i < N
        invariant
            start + N == end <= input.len(),
            0 <= i <= N,
            s == input@.subrange(start as int, end as int),
            text@ =~= word_text(kind),
            forall|k: int| 0 <= k < i ==> upper(#[trigger] s[k]) == word_text(kind)[k],
        decreases N - i,
    {
        if up(input[start + i]) != text[i] {
            assert(upper(s[i as int]) != word_text(kind)[i as int]);
            return false;
        }
        i += 1;
    }
    true
}

/// The reserved word that the bytes `start..end` spell, if they spell one.
fn word_kind(input: &[u8], start: usize, end: usize) -> (r: Option<TokenKind>)
    requires
        start <= end <= input.len(),
    ensures
        match r {
            Some(kind) => is_word_spelling(kind, input@.subrange(start as int, end as int)),
            None => forall|kind: TokenKind|
                !is_word_spelling(kind, input@.subrange(start as int, end as int)),
        },
{
    if spelled(input, start, end, &['A' as u8, 'N' as u8, 'D' as u8], Ghost(TokenKind::AND)) {
        Some(TokenKind::AND)
    } else if spelled(input, start, end, &['O' as u8, 'R' as u8], Ghost(TokenKind::OR)) {
        Some(TokenKind::OR)
    } else if spelled(
        input,
        start,
        end,
        &['T' as u8, 'R' as u8, 'U' as u8, 'E' as u8],
        Ghost(TokenKind::TRUE),
    ) {
        Some(TokenKind::TRUE)
    } else if spelled(
        input,
        start,
        end,
        &['F' as u8, 'A' as u8, 'L' as u8, 'S' as u8, 'E' as u8],
        Ghost(TokenKind::FALSE),
    ) {
        Some(TokenKind::FALSE)
    } else if spelled(
        input,
        start,
        end,
        &['N' as u8, 'U' as u8, 'L' as u8, 'L' as u8],
        Ghost(TokenKind::NULL),
    ) {
        Some(TokenKind::NULL)
    } else if spelled(
        input,
        start,
        end,
        &['N' as u8, 'O' as u8, 'T' as u8],
        Ghost(TokenKind::NOT),
    ) {
        Some(TokenKind::NOT)
    } else if spelled(input, start, end, &['I' as u8, 'N' as u8], Ghost(TokenKind::IN)) {
        Some(TokenKind::IN)
    } else if spelled(
        input,
        start,
        end,
        &['N' as u8, 'I' as u8, 'N' as u8],
        Ghost(TokenKind::NIN),
    ) {
        Some(TokenKind::NIN)
    } else if spelled(
        input,
        start,
        end,
        &['S' as u8, 'U' as u8, 'B' as u8, 'S' as u8, 'E' as u8, 'T' as u8, 'O' as u8, 'F' as u8],
        Ghost(TokenKind::SUBSETOF),
    ) {
        Some(TokenKind::SUBSETOF)
    } else if spelled(
        input,
        start,
        end,
        &['C' as u8, 'O' as u8, 'N' as u8, 'T' as u8, 'A' as u8, 'I' as u8, 'N' as u8, 'S' as u8],
        Ghost(TokenKind::CONTAINS),
    ) {
        Some(TokenKind::CONTAINS)
    } else if spelled(
        input,
        start,
        end,
        &['S' as u8, 'I' as u8, 'Z' as u8, 'E' as u8],
        Ghost(TokenKind::SIZE),
    ) {
        Some(TokenKind::SIZE)
    } else if spelled(
        input,
        start,
        end,
        &['E' as u8, 'M' as u8, 'P' as u8, 'T' as u8, 'Y' as u8],
        Ghost(TokenKind::EMPTY),
    ) {
        Some(TokenKind::EMPTY)
    } else {
        None
    }
}

/// The name or reserved word that starts at `start`.
fn name(input: &[u8], start: usize) -> (r: (TokenKind, usize))
    requires
        start < input.len(),
        is_name_start(input[start as int]),
    ensures
        is_next_token(input@, start as int, r.1 as int, r.0),
{
    let mut end = start + 1;
    while end < input.len() && name_part(input[end])
        invariant
            start < end <= input.len(),
            forall|k: int| start < k < end ==> is_name_part(input[k]),
        decreases input.len() - end,
    {
        end += 1;
    }
    let word = word_kind(input, start, end);
    let kind = match word {
        Some(kind) => kind,
        None => TokenKind::Ident,
    };
    proof {
        let s = input@.subrange(start as int, end as int);
        assert(is_name(s)) by {
            assert forall|k: int| 1 <= k < s.len() implies is_name_part(#[trigger] s[k]) by {
                assert(s[k] == input[start + k]);
            }
        }
        assert forall|other: TokenKind, e: int| #[trigger]
            lexeme_at(input@, start as int, e, other) implies e < end || (e == end && (other
            == kind || other == TokenKind::Ident)) by {
            let t = input@.subrange(start as int, e);
            lemma_spelling_begins(other, t);
            assert(t[0] == input[start as int]);
            if other.is_word() {
                lemma_word_is_name(other, t);
                if e == end && word is Some {
                    lemma_word_unique(other, kind, t);
                }
            } else if !(other is Ident) {
                assert(!may_begin(other, input[start as int]));
            }
            if e > end {
                assert(t[end - start] == input[end as int]);
            }
        }
    }
    (kind, end)
}

/// The token that starts with the `.` at `start`: a float literal where a
/// digit follows, else `..` or `.`.
fn after_dot(input: &[u8], start: usize) -> (r: (TokenKind, usize))
    requires
        start < input.len(),
        input[start as int] == '.' as u8,
    ensures
        is_next_token(input@, start as int, r.1 as int, r.0),
{
    let n = input.len();
    let (kind, end) = if start + 1 < n && digit(input[start + 1]) {
        assert(input@.subrange(start as int, start as int).len() == 0);
        (TokenKind::LiteralFloat, float_end(input, start, start))
    } else if start + 1 < n && input[start + 1] == '.' as u8 {
        (TokenKind::DoublePeriod, start + 2)
    } else {
        (TokenKind::Period, start + 1)
    };
    proof {
        let s = input@.subrange(start as int, end as int);
        assert(s[0] == input[start as int]);
        if kind is DoublePeriod {
            assert(s[1] == input[start + 1]);
            assert(s =~= sign_text(kind));
        }
        if kind is Period {
            assert(s =~= sign_text(kind));
        }
        assert forall|other: TokenKind, e: int| #[trigger]
            lexeme_at(input@, start as int, e, other) implies e < end || (e == end && (other
            == kind || other == TokenKind::Ident)) by {
            let t = input@.subrange(start as int, e);
            lemma_spelling_begins(other, t);
            assert(t[0] == input[start as int]);
            if other is LiteralFloat {
                assert(input@.subrange(start as int, start as int).len() == 0);
                if start + 1 < n && is_digit(input[start + 1]) {
                } else {
                    let frac = start + 1;
                    assert(input@.subrange(start + 1, frac as int).len() == 0);
                    lemma_float_with_dot(input@, start as int, start as int, frac as int, e);
                }
            } else if other is DoublePeriod {
                assert(t[1] == input[start + 1]);
            } else if other is Period {
            } else {
                assert(!may_begin(other, input[start as int]));
            }
        }
    }
    (kind, end)
}

/// The token that starts with the `-` at `start`: an integer literal where
/// a digit follows, else `-`.
fn after_minus(input: &[u8], start: usize) -> (r: (TokenKind, usize))
    requires
        start < input.len(),
        input[start as int] == '-' as u8,
    ensures
        is_next_token(input@, start as int, r.1 as int, r.0),
{
    let n = input.len();
    let (kind, end) = if start + 1 < n && digit(input[start + 1]) {
        (TokenKind::LiteralInteger, digits_end(input, start + 1))
    } else {
        (TokenKind::Minus, start + 1)
    };
    proof {
        let s = input@.subrange(start as int, end as int);
        assert(s[0] == input[start as int]);
        if kind is Minus {
            assert(s =~= sign_text(kind));
        } else {
            assert(s.skip(1) =~= input@.subrange(start + 1, end as int));
        }
        assert forall|other: TokenKind, e: int| #[trigger]
            lexeme_at(input@, start as int, e, other) implies e < end || (e == end && (other
            == kind || other == TokenKind::Ident)) by {
            let t = input@.subrange(start as int, e);
            lemma_spelling_begins(other, t);
            assert(t[0] == input[start as int]);
            if other is LiteralInteger {
                assert(t.skip(1) =~= input@.subrange(start + 1, e));
                assert(t.skip(1)[0] == input[start + 1]);
                if kind is LiteralInteger {
                    lemma_digits_bounded(input@, start + 1, end as int, e);
                }
            } else if other is Minus {
            } else {
                assert(!may_begin(other, input[start as int]));
            }
        }
    }
    (kind, end)
}

/// The length and the bytes of each punctuation sign.
spec fn sign_shape(kind: TokenKind, len: int, b: u8, c: u8, d: u8) -> bool {
    match kind {
        TokenKind::Dollar => len == 1 && b == '$' as u8,
        TokenKind::DoubleEq => len == 2 && b == '=' as u8 && c == '=' as u8,
        TokenKind::Eq => len == 1 && b == '=' as u8,
        TokenKind::NotEq => len == 2 && ((b == '<' as u8 && c == '>' as u8) || (b == '!' as u8 && c
            == '=' as u8)),
        TokenKind::Lt => len == 1 && b == '<' as u8,
        TokenKind::Gt => len == 1 && b == '>' as u8,
        TokenKind::Lte => len == 2 && b == '<' as u8 && c == '=' as u8,
        TokenKind::Gte => len == 2 && b == '>' as u8 && c == '=' as u8,
        TokenKind::Spaceship => len == 3 && b == '<' as u8 && c == '=' as u8 && d == '>' as u8,
        TokenKind::Plus => len == 1 && b == '+' as u8,
        TokenKind::Minus => len == 1 && b == '-' as u8,
        TokenKind::Multiply => len == 1 && b == '*' as u8,
        TokenKind::Divide => len == 1 && b == '/' as u8,
        TokenKind::Modulo => len == 1 && b == '%' as u8,
        TokenKind::StringConcat => len == 2 && b == '|' as u8 && c == '|' as u8,
        TokenKind::LParen => len == 1 && b == '(' as u8,
        TokenKind::RParen => len == 1 && b == ')' as u8,
        TokenKind::Comma => len == 1 && b == ',' as u8,
        TokenKind::Period => len == 1 && b == '.' as u8,
        TokenKind::DoublePeriod => len == 2 && b == '.' as u8 && c == '.' as u8,
        TokenKind::Colon => len == 1 && b == ':' as u8,
        TokenKind::DoubleColon => len == 2 && b == ':' as u8 && c == ':' as u8,
        TokenKind::SemiColon => len == 1 && b == ';' as u8,
        TokenKind::Backslash => len == 1 && b == '\\' as u8,
        TokenKind::LBracket => len == 1 && b == '[' as u8,
        TokenKind::RBracket => len == 1 && b == ']' as u8,
        TokenKind::Caret => len == 1 && b == '^' as u8,
        TokenKind::LBrace => len == 1 && b == '{' as u8,
        TokenKind::RBrace => len == 1 && b == '}' as u8,
        TokenKind::AtSign => len == 1 && b == '@' as u8,
        TokenKind::Placeholder => len == 1 && b == '?' as u8,
        _ => false,
    }
}

/// The bytes spell a punctuation sign exactly when they have its length and
/// are its bytes.
proof fn lemma_sign_shape(kind: TokenKind, s: Seq<u8>)
    requires
        !kind.is_word(),
        !(kind is Ident),
        !(kind is QuotedString),
        !(kind is LiteralInteger),
        !(kind is LiteralFloat),
    ensures
        spells(kind, s) == sign_shape(kind, s.len() as int, s[0], s[1], s[2]),
{
    if sign_shape(kind, s.len() as int, s[0], s[1], s[2]) {
        if kind is NotEq {
            if s[0] == '<' as u8 {
                assert(s =~= seq!['<' as u8, '>' as u8]);
            } else {
                assert(s =~= seq!['!' as u8, '=' as u8]);
            }
        } else {
            assert(s =~= sign_text(kind));
        }
    }
}

/// The punctuation sign that starts at `start`, if one does. The first byte
/// is neither `.` nor `-`.
fn sign(input: &[u8], start: usize) -> (r: Option<(TokenKind, usize)>)
    requires
        start < input.len(),
        input[start as int] != '.' as u8,
        input[start as int] != '-' as u8,
        !is_digit(input[start as int]),
        !is_name_start(input[start as int]),
        !is_quote(input[start as int]),
    ensures
        match r {
            Some((kind, end)) => is_next_token(input@, start as int, end as int, kind),
            None => no_token_at(input@, start as int),
        },
{
    let n = input.len();
    let b = input[start];
    let c: u8 = if start + 1 < n {
        input[start + 1]
    } else {
        0
    };
    let d: u8 = if n - start > 2 {
        input[start + 2]
    } else {
        0
    };
    let eq = '=' as u8;
    let r = if b == '$' as u8 {
        Some((TokenKind::Dollar, start + 1))
    } else if b == eq {
        if c == eq {
            Some((TokenKind::DoubleEq, start + 2))
        } else {
            Some((TokenKind::Eq, start + 1))
        }
    } else if b == '<' as u8 {
        if c == eq && d == '>' as u8 {
            Some((TokenKind::Spaceship, start + 3))
        } else if c == eq {
            Some((TokenKind::Lte, start + 2))
        } else if c == '>' as u8 {
            Some((TokenKind::NotEq, start + 2))
        } else {
            Some((TokenKind::Lt, start + 1))
        }
    } else if b == '>' as u8 {
        if c == eq {
            Some((TokenKind::Gte, start + 2))
        } else {
            Some((TokenKind::Gt, start + 1))
        }
    } else if b == '!' as u8 {
        if c == eq {
            Some((TokenKind::NotEq, start + 2))
        } else {
            None
        }
    } else if b == '|' as u8 {
        if c == '|' as u8 {
            Some((TokenKind::StringConcat, start + 2))
        } else {
            None
        }
    } else if b == ':' as u8 {
        if c == ':' as u8 {
            Some((TokenKind::DoubleColon, start + 2))
        } else {
            Some((TokenKind::Colon, start + 1))
        }
    } else if b == '+' as u8 {
        Some((TokenKind::Plus, start + 1))
    } else if b == '*' as u8 {
        Some((TokenKind::Multiply, start + 1))
    } else if b == '/' as u8 {
        Some((TokenKind::Divide, start + 1))
    } else if b == '%' as u8 {
        Some((TokenKind::Modulo, start + 1))
    } else if b == '(' as u8 {
        Some((TokenKind::LParen, start + 1))
    } else if b == ')' as u8 {
        Some((TokenKind::RParen, start + 1))
    } else if b == ',' as u8 {
        Some((TokenKind::Comma, start + 1))
    } else if b == ';' as u8 {
        Some((TokenKind::SemiColon, start + 1))
    } else if b == '\\' as u8 {
        Some((TokenKind::Backslash, start + 1))
    } else if b == '[' as u8 {
        Some((TokenKind::LBracket, start + 1))
    } else if b == ']' as u8 {
        Some((TokenKind::RBracket, start + 1))
    } else if b == '^' as u8 {
        Some((TokenKind::Caret, start + 1))
    } else if b == '{' as u8 {
        Some((TokenKind::LBrace, start + 1))
    } else if b == '}' as u8 {
        Some((TokenKind::RBrace, start + 1))
    } else if b == '@' as u8 {
        Some((TokenKind::AtSign, start + 1))
    } else if b == '?' as u8 {
        Some((TokenKind::Placeholder, start + 1))
    } else {
        None
    };
    proof {
        if let Some((kind, end)) = r {
            let s = input@.subrange(start as int, end as int);
            assert(s[0] == b);
            if end >= start + 2 {
                assert(s[1] == c);
            }
            if end >= start + 3 {
                assert(s[2] == d);
            }
            lemma_sign_shape(kind, s);
        }
        assert forall|other: TokenKind, e: int| #[trigger]
            lexeme_at(input@, start as int, e, other) implies match r {
            Some((kind, end)) => e < end || (e == end && other == kind),
            None => false,
        } by {
            let t = input@.subrange(start as int, e);
            lemma_spelling_begins(other, t);
            assert(t[0] == b);
            if e >= start + 2 {
                assert(t[1] == c);
            }
            if e >= start + 3 {
                assert(t[2] == d);
            }
            lemma_sign_shape(other, t);
        }
    }
    r
}

/// The token that starts at `start`: its kind and the offset at which it
/// ends, or `None` where no token starts there.
pub fn next_token(input: &[u8], start: usize) -> (r: Option<(TokenKind, usize)>)
    requires
        start < input.len(),
    ensures
        match r {
            Some((kind, end)) => is_next_token(input@, start as int, end as int, kind),
            None => no_token_at(input@, start as int),
        },
{
    let b = input[start];
    if name_start(b) {
        Some(name(input, start))
    } else if digit(b) {
        Some(number(input, start))
    } else if b == '.' as u8 {
        Some(after_dot(input, start))
    } else if b == '-' as u8 {
        Some(after_minus(input, start))
    } else if b == '`' as u8 || b == '"' as u8 || b == '\'' as u8 {
        let found = if b == '`' as u8 {
            backticked_end(input, start)
        } else {
            quoted_end(input, start)
        };
        proof {
            assert forall|other: TokenKind, e: int| #[trigger]
                lexeme_at(input@, start as int, e, other) implies other is QuotedString by {
                let t = input@.subrange(start as int, e);
                lemma_spelling_begins(other, t);
                assert(t[0] == b);
            }
        }
        match found {
            Some(end) => Some((TokenKind::QuotedString, end)),
            None => None,
        }
    } else {
        sign(input, start)
    }
}

} // verus!
