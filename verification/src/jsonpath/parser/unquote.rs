//! The text that a quoted string stands for.
use crate::text::push_char;
use vstd::prelude::*;
use vstd::std_specs::iter::IteratorSpec;
use vstd::utf8::is_scalar;

verus! {

/// The value of a digit in base sixteen.
pub open spec fn hex_value(c: char) -> Option<int> {
    if '0' <= c <= '9' {
        Some(c as int - '0' as int)
    } else if 'a' <= c <= 'f' {
        Some(c as int - 'a' as int + 10)
    } else if 'A' <= c <= 'F' {
        Some(c as int - 'A' as int + 10)
    } else {
        None
    }
}

/// The number that the four characters from `i` on spell in base sixteen.
pub open spec fn hex4(s: Seq<char>, i: int) -> Option<int> {
    if 0 <= i && i + 4 <= s.len() && hex_value(s[i]) is Some && hex_value(s[i + 1]) is Some
        && hex_value(s[i + 2]) is Some && hex_value(s[i + 3]) is Some {
        Some(
            hex_value(s[i])->0 * 0x1000 + hex_value(s[i + 1])->0 * 0x100 + hex_value(s[i + 2])->0
                * 0x10 + hex_value(s[i + 3])->0,
        )
    } else {
        None
    }
}

/// The character that stands behind a backslash: `n`, `t`, `r`, `b` and `f`
/// stand for line feed, tab, carriage return, backspace and form feed, any
/// other character for itself.
pub open spec fn escape_of(c: char) -> char {
    if c == 'n' {
        '\n'
    } else if c == 't' {
        '\t'
    } else if c == 'r' {
        '\r'
    } else if c == 'b' {
        '\u{8}'
    } else if c == 'f' {
        '\u{c}'
    } else {
        c
    }
}

/// The text with the character in front.
pub open spec fn with_first(c: char, rest: Option<Seq<char>>) -> Option<Seq<char>> {
    match rest {
        Some(rest) => Some(seq![c] + rest),
        None => None,
    }
}

/// The text that the characters from `i` up to `end` stand for between
/// two quotation marks `quote`.
///
/// A backslash and `u` with four digits in base sixteen stand for the
/// character of that code; the code of the first half of a surrogate pair
/// needs the second half behind it, written in the same way, and the two
/// stand for one character. A backslash and another character stand for
/// what `escape_of` gives. The quotation mark twice stands for the mark.
/// Every other character stands for itself.
pub open spec fn unquoted_from(s: Seq<char>, i: int, end: int, quote: char) -> Option<
    Seq<char>,
>
    decreases end - i,
{
    if i < 0 || end > s.len() {
        None
    } else if i >= end {
        Some(Seq::empty())
    } else if s[i] == '\\' {
        if i + 1 >= end {
            None
        } else if s[i + 1] == 'u' {
            match hex4(s, i + 2) {
                Some(high) => if i + 6 > end {
                    None
                } else if 0xD800 <= high < 0xDC00 {
                    if i + 12 <= end && s[i + 6] == '\\' && s[i + 7] == 'u' && hex4(s, i + 8)
                        is Some && 0xDC00 <= hex4(s, i + 8)->0 < 0xE000 {
                        with_first(
                            (0x10000 + (high - 0xD800) * 0x400 + (hex4(s, i + 8)->0
                                - 0xDC00)) as char,
                            unquoted_from(s, i + 12, end, quote),
                        )
                    } else {
                        None
                    }
                } else if 0xDC00 <= high < 0xE000 {
                    None
                } else {
                    with_first(high as char, unquoted_from(s, i + 6, end, quote))
                },
                None => None,
            }
        } else {
            with_first(escape_of(s[i + 1]), unquoted_from(s, i + 2, end, quote))
        }
    } else if s[i] == quote {
        if i + 1 < end && s[i + 1] == quote {
            with_first(quote, unquoted_from(s, i + 2, end, quote))
        } else {
            None
        }
    } else {
        with_first(s[i], unquoted_from(s, i + 1, end, quote))
    }
}

/// The text that a quoted string stands for: between backticks the text as
/// it is, between two `"` or two `'` the text with its escapes resolved.
pub open spec fn unquoted(s: Seq<char>) -> Option<Seq<char>> {
    if s.len() < 2 || s[0] != s[s.len() - 1] {
        None
    } else if s[0] == '`' {
        Some(s.subrange(1, s.len() - 1))
    } else if s[0] == '"' || s[0] == '\'' {
        unquoted_from(s, 1, s.len() - 1, s[0])
    } else {
        None
    }
}

/// The character of the given code, by `char::from_u32`: there is one
/// exactly where the code is a Unicode scalar value.
#[verifier::external_body]
fn char_of(code: u32) -> (r: Option<char>)
    ensures
        r is Some <==> is_scalar(code),
        r matches Some(c) ==> c == code as char,
{
    char::from_u32(code)
}

/// The characters of a text.
pub(crate) fn chars_of(text: &str) -> (r: Vec<char>)
    ensures
        r@ == text@,
{
    let mut out: Vec<char> = Vec::new();
    let mut it = text.chars();
    loop
        invariant
            0 <= out.len() <= text@.len(),
            it.remaining() == text@.subrange(out.len() as int, text@.len() as int),
            it.obeys_prophetic_iter_laws(),
            it.decrease() is Some,
            out@ == text@.subrange(0, out.len() as int),
        ensures
            out@ == text@,
        decreases text@.len() - out.len(),
    {
        let ghost before = it.remaining();
        match it.next() {
            Some(c) => {
                out.push(c);
                proof {
                    assert(it.remaining() =~= text@.subrange(out.len() as int, text@.len() as int));
                    assert(out@ =~= text@.subrange(0, out.len() as int));
                }
            },
            None => {
                assert(before.len() == 0);
                assert(out@ =~= text@);
                break;
            },
        }
    }
    out
}

fn hex_digit_value(c: char) -> (r: Option<u32>)
    ensures
        match r {
            Some(v) => hex_value(c) == Some(v as int) && v < 16,
            None => hex_value(c) is None,
        },
{
    if '0' <= c && c <= '9' {
        Some(c as u32 - '0' as u32)
    } else if 'a' <= c && c <= 'f' {
        Some(c as u32 - 'a' as u32 + 10)
    } else if 'A' <= c && c <= 'F' {
        Some(c as u32 - 'A' as u32 + 10)
    } else {
        None
    }
}

fn read_hex4(s: &Vec<char>, i: usize) -> (r: Option<u32>)
    ensures
        match r {
            Some(v) => hex4(s@, i as int) == Some(v as int) && v < 0x10000,
            None => hex4(s@, i as int) is None,
        },
{
    if s.len() < 4 || i > s.len() - 4 {
        return None;
    }
    let a = match hex_digit_value(s[i]) {
        Some(v) => v,
        None => {
            return None;
        },
    };
    let b = match hex_digit_value(s[i + 1]) {
        Some(v) => v,
        None => {
            return None;
        },
    };
    let c = match hex_digit_value(s[i + 2]) {
        Some(v) => v,
        None => {
            return None;
        },
    };
    let d = match hex_digit_value(s[i + 3]) {
        Some(v) => v,
        None => {
            return None;
        },
    };
    Some(a * 0x1000 + b * 0x100 + c * 0x10 + d)
}

fn escape(c: char) -> (r: char)
    ensures
        r == escape_of(c),
{
    if c == 'n' {
        '\n'
    } else if c == 't' {
        '\t'
    } else if c == 'r' {
        '\r'
    } else if c == 'b' {
        '\u{8}'
    } else if c == 'f' {
        '\u{c}'
    } else {
        c
    }
}

/// What `rest` stands for with the text `head` in front.
pub open spec fn behind(head: Seq<char>, rest: Option<Seq<char>>) -> Option<Seq<char>> {
    match rest {
        Some(rest) => Some(head + rest),
        None => None,
    }
}

/// Reads what stands at `i` between the quotation marks, appends what it
/// stands for, and gives the index behind it; `None` where nothing that
/// stands for a character stands there.
fn unquote_step(s: &Vec<char>, i: usize, end: usize, quote: char, out: &mut String) -> (r: Option<
    usize,
>)
    requires
        1 <= i < end <= s.len(),
    ensures
        match r {
            Some(k) => i < k <= end && behind(
                old(out)@,
                unquoted_from(s@, i as int, end as int, quote),
            ) == behind(final(out)@, unquoted_from(s@, k as int, end as int, quote)),
            None => unquoted_from(s@, i as int, end as int, quote) is None,
        },
{
    let ghost head = out@;
    let c = s[i];
    if c == '\\' {
        if i + 1 >= end {
            return None;
        }
        let e = s[i + 1];
        if e == 'u' {
            let high = match read_hex4(s, i + 2) {
                Some(high) => high,
                None => {
                    return None;
                },
            };
            if i + 6 > end {
                return None;
            }
            if 0xD800 <= high && high < 0xDC00 {
                if end - i < 12 || s[i + 6] != '\\' || s[i + 7] != 'u' {
                    return None;
                }
                let low = match read_hex4(s, i + 8) {
                    Some(low) => low,
                    None => {
                        return None;
                    },
                };
                if low < 0xDC00 || low >= 0xE000 {
                    return None;
                }
                let code = 0x10000 + (high - 0xD800) * 0x400 + (low - 0xDC00);
                match char_of(code) {
                    Some(ch) => {
                        push_char(out, ch);
                    },
                    None => {
                        assert(is_scalar(code));
                        return None;
                    },
                }
                proof {
                    lemma_behind(head, code as char, unquoted_from(s@, i + 12, end as int, quote));
                }
                Some(i + 12)
            } else if 0xDC00 <= high && high < 0xE000 {
                None
            } else {
                match char_of(high) {
                    Some(ch) => {
                        push_char(out, ch);
                    },
                    None => {
                        assert(is_scalar(high));
                        return None;
                    },
                }
                proof {
                    lemma_behind(head, high as char, unquoted_from(s@, i + 6, end as int, quote));
                }
                Some(i + 6)
            }
        } else {
            push_char(out, escape(e));
            proof {
                lemma_behind(head, escape_of(e), unquoted_from(s@, i + 2, end as int, quote));
            }
            Some(i + 2)
        }
    } else if c == quote {
        if i + 1 < end && s[i + 1] == quote {
            push_char(out, quote);
            proof {
                lemma_behind(head, quote, unquoted_from(s@, i + 2, end as int, quote));
            }
            Some(i + 2)
        } else {
            None
        }
    } else {
        push_char(out, c);
        proof {
            lemma_behind(head, c, unquoted_from(s@, i + 1, end as int, quote));
        }
        Some(i + 1)
    }
}

/// The text that a quoted string stands for.
pub fn unquote(text: &str) -> (r: Option<String>)
    ensures
        match r {
            Some(t) => unquoted(text@) == Some(t@),
            None => unquoted(text@) is None,
        },
{
    let s = chars_of(text);
    let n = s.len();
    if n < 2 || s[0] != s[n - 1] {
        return None;
    }
    let quote = s[0];
    let mut out = String::new();
    let end = n - 1;
    if quote == '`' {
        let mut i: usize = 1;
        while i < end
            invariant
                1 <= i <= end < s.len(),
                out@ == s@.subrange(1, i as int),
            decreases end - i,
        {
            push_char(&mut out, s[i]);
            i += 1;
            assert(out@ =~= s@.subrange(1, i as int));
        }
        return Some(out);
    }
    if quote != '"' && quote != '\'' {
        return None;
    }
    let ghost whole = unquoted_from(s@, 1, end as int, quote);
    assert(Seq::<char>::empty() + whole->0 =~= whole->0);
    let mut i: usize = 1;
    while i < end
        invariant
            1 <= i <= end <= s.len(),
            whole == unquoted(text@),
            whole == behind(out@, unquoted_from(s@, i as int, end as int, quote)),
        decreases end - i,
    {
        match unquote_step(&s, i, end, quote, &mut out) {
            Some(k) => {
                i = k;
            },
            None => {
                return None;
            },
        }
    }
    assert(out@ + Seq::<char>::empty() =~= out@);
    Some(out)
}

/// A text in front of a character in front of a text is the text with the
/// character behind it in front of that text.
proof fn lemma_behind(head: Seq<char>, c: char, rest: Option<Seq<char>>)
    ensures
        behind(head, with_first(c, rest)) == behind(head.push(c), rest),
{
    if let Some(rest) = rest {
        assert(head + (seq![c] + rest) =~= head.push(c) + rest);
    }
}

} // verus!
