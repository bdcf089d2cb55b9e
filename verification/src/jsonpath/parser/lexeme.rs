//! How each kind of token is spelled, and which token starts at a given byte
//! of a path expression.
use crate::jsonpath::parser::token::TokenKind;
use vstd::prelude::*;

verus! {

/// Space, tab, line feed, form feed or carriage return.
pub open spec fn is_blank(b: u8) -> bool {
    b == ' ' as u8 || b == '\t' as u8 || b == '\n' as u8 || b == 0x0c || b == '\r' as u8
}

/// A decimal digit.
pub open spec fn is_digit(b: u8) -> bool {
    ('0' as u8) <= b <= '9' as u8
}

/// A byte that may begin a name: an ASCII letter or `_`.
pub open spec fn is_name_start(b: u8) -> bool {
    ('a' as u8) <= b <= 'z' as u8 || ('A' as u8) <= b <= 'Z' as u8 || b == '_' as u8
}

/// A byte that may continue a name: an ASCII letter, a digit, `_` or `$`.
pub open spec fn is_name_part(b: u8) -> bool {
    is_name_start(b) || is_digit(b) || b == '$' as u8
}

/// One of the three quotation marks: `` ` ``, `"` and `'`.
pub open spec fn is_quote(b: u8) -> bool {
    b == '`' as u8 || b == '"' as u8 || b == '\'' as u8
}

/// The byte with an ASCII lower-case letter turned into its upper-case form.
pub open spec fn upper(b: u8) -> u8 {
    if ('a' as u8) <= b <= 'z' as u8 {
        (b - 32) as u8
    } else {
        b
    }
}

/// Every byte of `s` is a decimal digit.
pub open spec fn all_digits(s: Seq<u8>) -> bool {
    forall|i: int| 0 <= i < s.len() ==> is_digit(#[trigger] s[i])
}

/// A name: a name-start byte followed by any number of name-part bytes.
pub open spec fn is_name(s: Seq<u8>) -> bool {
    &&& s.len() >= 1
    &&& is_name_start(s[0])
    &&& forall|i: int| 1 <= i < s.len() ==> is_name_part(#[trigger] s[i])
}

/// An integer literal: an optional `-`, then one or more digits.
pub open spec fn is_integer(s: Seq<u8>) -> bool {
    &&& s.len() >= 1
    &&& if s[0] == '-' as u8 {
        s.len() >= 2 && all_digits(s.skip(1))
    } else {
        all_digits(s)
    }
}

/// An exponent: `e` or `E`, an optional sign, then one or more digits.
pub open spec fn is_exponent(s: Seq<u8>) -> bool {
    &&& s.len() >= 2
    &&& (s[0] == 'e' as u8 || s[0] == 'E' as u8)
    &&& if s[1] == '+' as u8 || s[1] == '-' as u8 {
        s.len() >= 3 && all_digits(s.skip(2))
    } else {
        all_digits(s.skip(1))
    }
}

/// `s` is a float literal whose whole part is its first `i` bytes and whose
/// mantissa is its first `j` bytes. Either the mantissa holds a `.` with
/// digits on at least one side and an exponent may follow, or the mantissa is
/// all digits and an exponent must follow.
pub open spec fn is_float_split(s: Seq<u8>, i: int, j: int) -> bool {
    &&& 0 <= i <= j <= s.len()
    &&& all_digits(s.subrange(0, i))
    &&& if i < j {
        &&& s[i] == '.' as u8
        &&& all_digits(s.subrange(i + 1, j))
        &&& j >= 2
        &&& (j == s.len() || is_exponent(s.skip(j)))
    } else {
        i >= 1 && is_exponent(s.skip(i))
    }
}

/// A float literal: digits around a `.` with an optional exponent, or digits
/// with an exponent.
pub open spec fn is_float(s: Seq<u8>) -> bool {
    exists|i: int, j: int| is_float_split(s, i, j)
}

/// The inside of a string in `"` or `'`: a sequence of ordinary bytes, of
/// escapes (a backslash and any byte but a line feed) and of doubled
/// quotation marks.
pub open spec fn is_quoted_body(s: Seq<u8>, quote: u8) -> bool
    decreases s.len(),
{
    if s.len() == 0 {
        true
    } else if s[0] == '\\' as u8 {
        s.len() >= 2 && s[1] != '\n' as u8 && is_quoted_body(s.skip(2), quote)
    } else if s[0] == quote {
        s.len() >= 2 && s[1] == quote && is_quoted_body(s.skip(2), quote)
    } else {
        is_quoted_body(s.skip(1), quote)
    }
}

/// A quoted string: between two backticks anything but a backtick; between
/// two `"` or two `'` a body in which the mark itself stands doubled.
pub open spec fn is_quoted(s: Seq<u8>) -> bool {
    &&& s.len() >= 2
    &&& is_quote(s[0])
    &&& s[s.len() - 1] == s[0]
    &&& if s[0] == '`' as u8 {
        forall|i: int| 1 <= i < s.len() - 1 ==> #[trigger] s[i] != '`' as u8
    } else {
        is_quoted_body(s.subrange(1, s.len() - 1), s[0])
    }
}

/// The upper-case spelling of a reserved word; empty for every other kind.
pub open spec fn word_text(kind: TokenKind) -> Seq<u8> {
    match kind {
        TokenKind::AND => seq!['A' as u8, 'N' as u8, 'D' as u8],
        TokenKind::OR => seq!['O' as u8, 'R' as u8],
        TokenKind::TRUE => seq!['T' as u8, 'R' as u8, 'U' as u8, 'E' as u8],
        TokenKind::FALSE => seq!['F' as u8, 'A' as u8, 'L' as u8, 'S' as u8, 'E' as u8],
        TokenKind::NULL => seq!['N' as u8, 'U' as u8, 'L' as u8, 'L' as u8],
        TokenKind::NOT => seq!['N' as u8, 'O' as u8, 'T' as u8],
        TokenKind::IN => seq!['I' as u8, 'N' as u8],
        TokenKind::NIN => seq!['N' as u8, 'I' as u8, 'N' as u8],
        TokenKind::SUBSETOF => seq![
            'S' as u8, 'U' as u8, 'B' as u8, 'S' as u8, 'E' as u8, 'T' as u8, 'O' as u8, 'F' as u8,
        ],
        TokenKind::CONTAINS => seq![
            'C' as u8, 'O' as u8, 'N' as u8, 'T' as u8, 'A' as u8, 'I' as u8, 'N' as u8, 'S' as u8,
        ],
        TokenKind::SIZE => seq!['S' as u8, 'I' as u8, 'Z' as u8, 'E' as u8],
        TokenKind::EMPTY => seq!['E' as u8, 'M' as u8, 'P' as u8, 'T' as u8, 'Y' as u8],
        _ => Seq::empty(),
    }
}

/// `s` is the reserved word `kind` in any mix of upper and lower case.
pub open spec fn is_word_spelling(kind: TokenKind, s: Seq<u8>) -> bool {
    &&& kind.is_word()
    &&& s.len() == word_text(kind).len()
    &&& forall|i: int| 0 <= i < s.len() ==> upper(#[trigger] s[i]) == word_text(kind)[i]
}

/// The spelling of a punctuation sign that has exactly one; empty for every
/// other kind.
pub open spec fn sign_text(kind: TokenKind) -> Seq<u8> {
    match kind {
        TokenKind::Dollar => seq!['$' as u8],
        TokenKind::DoubleEq => seq!['=' as u8, '=' as u8],
        TokenKind::Eq => seq!['=' as u8],
        TokenKind::Lt => seq!['<' as u8],
        TokenKind::Gt => seq!['>' as u8],
        TokenKind::Lte => seq!['<' as u8, '=' as u8],
        TokenKind::Gte => seq!['>' as u8, '=' as u8],
        TokenKind::Spaceship => seq!['<' as u8, '=' as u8, '>' as u8],
        TokenKind::Plus => seq!['+' as u8],
        TokenKind::Minus => seq!['-' as u8],
        TokenKind::Multiply => seq!['*' as u8],
        TokenKind::Divide => seq!['/' as u8],
        TokenKind::Modulo => seq!['%' as u8],
        TokenKind::StringConcat => seq!['|' as u8, '|' as u8],
        TokenKind::LParen => seq!['(' as u8],
        TokenKind::RParen => seq![')' as u8],
        TokenKind::Comma => seq![',' as u8],
        TokenKind::Period => seq!['.' as u8],
        TokenKind::DoublePeriod => seq!['.' as u8, '.' as u8],
        TokenKind::Colon => seq![':' as u8],
        TokenKind::DoubleColon => seq![':' as u8, ':' as u8],
        TokenKind::SemiColon => seq![';' as u8],
        TokenKind::Backslash => seq!['\\' as u8],
        TokenKind::LBracket => seq!['[' as u8],
        TokenKind::RBracket => seq![']' as u8],
        TokenKind::Caret => seq!['^' as u8],
        TokenKind::LBrace => seq!['{' as u8],
        TokenKind::RBrace => seq!['}' as u8],
        TokenKind::AtSign => seq!['@' as u8],
        TokenKind::Placeholder => seq!['?' as u8],
        _ => Seq::empty(),
    }
}

/// `s` is a spelling of a token of the given kind. `Error`, `EOI` and
/// `Whitespace` have none: the first two stand for no text, and blanks are
/// passed over.
pub open spec fn spells(kind: TokenKind, s: Seq<u8>) -> bool {
    match kind {
        TokenKind::Error | TokenKind::EOI | TokenKind::Whitespace => false,
        TokenKind::Ident => is_name(s),
        TokenKind::QuotedString => is_quoted(s),
        TokenKind::LiteralInteger => is_integer(s),
        TokenKind::LiteralFloat => is_float(s),
        TokenKind::NotEq => s =~= seq!['<' as u8, '>' as u8] || s =~= seq!['!' as u8, '=' as u8],
        _ => if kind.is_word() {
            is_word_spelling(kind, s)
        } else {
            s =~= sign_text(kind)
        },
    }
}

/// The bytes `start..end` of `input` spell a token of the given kind.
pub open spec fn lexeme_at(input: Seq<u8>, start: int, end: int, kind: TokenKind) -> bool {
    0 <= start < end <= input.len() && spells(kind, input.subrange(start, end))
}

/// The token that starts at `start` is of the given kind and ends before
/// `end`: the bytes between spell it, no spelling of any kind that starts at
/// `start` is longer, and the only other kind that the same bytes could
/// spell is a name, which a reserved word outranks.
pub open spec fn is_next_token(input: Seq<u8>, start: int, end: int, kind: TokenKind) -> bool {
    &&& lexeme_at(input, start, end, kind)
    &&& forall|other: TokenKind, e: int| #[trigger]
        lexeme_at(input, start, e, other) ==> e < end || (e == end && (other == kind || other
            == TokenKind::Ident))
}

/// No token starts at `start`.
pub open spec fn no_token_at(input: Seq<u8>, start: int) -> bool {
    forall|kind: TokenKind, e: int| !#[trigger] lexeme_at(input, start, e, kind)
}

/// The bytes with which a token of the given kind may begin.
pub open spec fn may_begin(kind: TokenKind, b: u8) -> bool {
    match kind {
        TokenKind::Error | TokenKind::EOI | TokenKind::Whitespace => false,
        TokenKind::Ident => is_name_start(b),
        TokenKind::QuotedString => is_quote(b),
        TokenKind::LiteralInteger => is_digit(b) || b == '-' as u8,
        TokenKind::LiteralFloat => is_digit(b) || b == '.' as u8,
        TokenKind::Dollar => b == '$' as u8,
        TokenKind::DoubleEq | TokenKind::Eq => b == '=' as u8,
        TokenKind::NotEq => b == '<' as u8 || b == '!' as u8,
        TokenKind::Lt | TokenKind::Lte | TokenKind::Spaceship => b == '<' as u8,
        TokenKind::Gt | TokenKind::Gte => b == '>' as u8,
        TokenKind::Plus => b == '+' as u8,
        TokenKind::Minus => b == '-' as u8,
        TokenKind::Multiply => b == '*' as u8,
        TokenKind::Divide => b == '/' as u8,
        TokenKind::Modulo => b == '%' as u8,
        TokenKind::StringConcat => b == '|' as u8,
        TokenKind::LParen => b == '(' as u8,
        TokenKind::RParen => b == ')' as u8,
        TokenKind::Comma => b == ',' as u8,
        TokenKind::Period | TokenKind::DoublePeriod => b == '.' as u8,
        TokenKind::Colon | TokenKind::DoubleColon => b == ':' as u8,
        TokenKind::SemiColon => b == ';' as u8,
        TokenKind::Backslash => b == '\\' as u8,
        TokenKind::LBracket => b == '[' as u8,
        TokenKind::RBracket => b == ']' as u8,
        TokenKind::Caret => b == '^' as u8,
        TokenKind::LBrace => b == '{' as u8,
        TokenKind::RBrace => b == '}' as u8,
        TokenKind::AtSign => b == '@' as u8,
        TokenKind::Placeholder => b == '?' as u8,
        TokenKind::AND => upper(b) == 'A' as u8,
        TokenKind::OR => upper(b) == 'O' as u8,
        TokenKind::TRUE => upper(b) == 'T' as u8,
        TokenKind::FALSE => upper(b) == 'F' as u8,
        TokenKind::NULL | TokenKind::NOT | TokenKind::NIN => upper(b) == 'N' as u8,
        TokenKind::IN => upper(b) == 'I' as u8,
        TokenKind::SUBSETOF | TokenKind::SIZE => upper(b) == 'S' as u8,
        TokenKind::CONTAINS => upper(b) == 'C' as u8,
        TokenKind::EMPTY => upper(b) == 'E' as u8,
    }
}

/// A spelling is not empty, and begins with a byte that its kind allows.
pub proof fn lemma_spelling_begins(kind: TokenKind, s: Seq<u8>)
    requires
        spells(kind, s),
    ensures
        s.len() >= 1,
        may_begin(kind, s[0]),
{
    if kind is LiteralFloat {
        let (i, j) = choose|i: int, j: int| is_float_split(s, i, j);
        assert(is_float_split(s, i, j));
        if i >= 1 {
            assert(s.subrange(0, i)[0] == s[0]);
        }
    }
}

/// A spelling ends with an ASCII byte.
pub proof fn lemma_spelling_ends_plain(kind: TokenKind, s: Seq<u8>)
    requires
        spells(kind, s),
    ensures
        s.len() >= 1,
        s.last() < 0x80,
{
    lemma_spelling_begins(kind, s);
    if kind is LiteralFloat {
        let (i, j) = choose|i: int, j: int| is_float_split(s, i, j);
        assert(is_float_split(s, i, j));
        let n = s.len() as int;
        if i < j {
            if j == n {
                if i + 1 < j {
                    assert(s.subrange(i + 1, j)[n - 1 - (i + 1)] == s[n - 1]);
                }
            } else {
                lemma_exponent_ends_plain(s.skip(j));
                assert(s.skip(j).last() == s.last());
            }
        } else {
            lemma_exponent_ends_plain(s.skip(i));
            assert(s.skip(i).last() == s.last());
        }
    } else if kind is LiteralInteger {
        if s[0] == '-' as u8 {
            assert(s.skip(1).last() == s.last());
        }
    } else if kind.is_word() {
        assert(upper(s.last()) == word_text(kind)[s.len() - 1]);
    }
}

proof fn lemma_exponent_ends_plain(s: Seq<u8>)
    requires
        is_exponent(s),
    ensures
        s.last() < 0x80,
{
    if s[1] == '+' as u8 || s[1] == '-' as u8 {
        assert(s.skip(2).last() == s.last());
    } else {
        assert(s.skip(1).last() == s.last());
    }
}

/// At most one token starts at a given byte.
pub proof fn lemma_next_token_unique(
    input: Seq<u8>,
    start: int,
    end1: int,
    kind1: TokenKind,
    end2: int,
    kind2: TokenKind,
)
    requires
        is_next_token(input, start, end1, kind1),
        is_next_token(input, start, end2, kind2),
    ensures
        end1 == end2,
        kind1 == kind2,
{
    assert(lexeme_at(input, start, end1, kind1));
    assert(lexeme_at(input, start, end2, kind2));
}

/// Where the longest spelling that starts at a byte spells a reserved word,
/// the token is that word and not a name.
pub proof fn law_word_outranks_name(input: Seq<u8>, start: int, end: int, kind: TokenKind)
    requires
        is_next_token(input, start, end, kind),
    ensures
        forall|word: TokenKind|
            word.is_word() && #[trigger] lexeme_at(input, start, end, word) ==> kind == word,
        kind is Ident ==> forall|word: TokenKind|
            word.is_word() ==> !#[trigger] lexeme_at(input, start, end, word),
{
}

} // verus!
