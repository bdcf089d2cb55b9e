//! JSON text: writing a value as text.
//!
//! The text of a floating-point number is not made here. The caller hands
//! in a table that gives, for the bits of each floating-point number in the
//! value, the text to write.
use crate::decode::{
    as_bool, as_number, as_str, decoded, from_slice, not_convertible, readable, Readable,
};
use crate::format::JsonValue;
use crate::jsonpath::exception::{ErrorCode, ErrorKind};
use crate::number::{Number, NumberValue};
use crate::value::{lemma_array_view, lemma_object_view, Value};
use vstd::prelude::*;
use vstd::std_specs::iter::IteratorSpec;
use vstd::std_specs::vec::axiom_vec_index_decreases;
use vstd::string::StringExecFns;

verus! {

/// The digit of a number from 0 to 15 in base sixteen, in lower case.
pub open spec fn hex_digit(n: int) -> char {
    if n < 10 {
        ('0' as u8 + n) as char
    } else {
        ('a' as u8 + n - 10) as char
    }
}

/// A character as it stands inside a JSON string: the quotation mark and
/// the backslash behind a backslash, backspace, form feed, line feed,
/// carriage return and tab as `\b`, `\f`, `\n`, `\r` and `\t`, any other
/// character below the space as `\u00` and two digits in base sixteen, and
/// every other character as itself.
pub open spec fn escaped_char(c: char) -> Seq<char> {
    if c == '"' {
        seq!['\\', '"']
    } else if c == '\\' {
        seq!['\\', '\\']
    } else if c == '\u{8}' {
        seq!['\\', 'b']
    } else if c == '\u{c}' {
        seq!['\\', 'f']
    } else if c == '\n' {
        seq!['\\', 'n']
    } else if c == '\r' {
        seq!['\\', 'r']
    } else if c == '\t' {
        seq!['\\', 't']
    } else if (c as u32) < 0x20 {
        seq!['\\', 'u', '0', '0', hex_digit((c as int) / 16), hex_digit((c as int) % 16)]
    } else {
        seq![c]
    }
}

/// The first `n` characters of a text as they stand inside a JSON string.
pub open spec fn escaped(s: Seq<char>, n: int) -> Seq<char>
    decreases n,
{
    if 0 < n <= s.len() {
        escaped(s, n - 1) + escaped_char(s[n - 1])
    } else {
        Seq::empty()
    }
}

/// A text as a JSON string: between quotation marks, its characters as they
/// stand inside a string.
pub open spec fn quoted(s: Seq<char>) -> Seq<char> {
    seq!['"'] + escaped(s, s.len() as int) + seq!['"']
}

/// A number that is not negative in decimal digits.
pub open spec fn decimal(n: int) -> Seq<char>
    decreases n,
{
    if n < 10 {
        seq![hex_digit(n)]
    } else {
        decimal(n / 10).push(hex_digit(n % 10))
    }
}

/// An integer in decimal digits, behind a `-` where it is negative.
pub open spec fn integer_text(n: int) -> Seq<char> {
    if n < 0 {
        seq!['-'] + decimal(-n)
    } else {
        decimal(n)
    }
}

/// The text that the first `n` entries of a table give for the
/// floating-point number of the given bits: that of the first entry for
/// these bits.
pub open spec fn float_text(table: Seq<(u64, String)>, bits: u64, n: int) -> Option<Seq<char>>
    decreases n,
{
    if 0 < n <= table.len() {
        match float_text(table, bits, n - 1) {
            Some(text) => Some(text),
            None => if table[n - 1].0 == bits {
                Some(table[n - 1].1@)
            } else {
                None
            },
        }
    } else {
        None
    }
}

/// The table gives a text for every floating-point number in the value.
pub open spec fn covers(table: Seq<(u64, String)>, v: JsonValue) -> bool
    decreases v,
{
    match v {
        JsonValue::Number(NumberValue::Float(bits)) => float_text(
            table,
            bits,
            table.len() as int,
        ) is Some,
        JsonValue::Array(items) => {
            &&& items.len() >= 0
            &&& forall|i: int| 0 <= i < items.len() ==> covers(table, #[trigger] items[i])
        },
        JsonValue::Object(members) => {
            &&& members.len() >= 0
            &&& forall|i: int| 0 <= i < members.len() ==> covers(table, (#[trigger] members[i]).1)
        },
        _ => true,
    }
}

/// A value as JSON text, with the texts that the table gives for its
/// floating-point numbers: `null`, `true` and `false`, integers in decimal
/// digits, strings between quotation marks, the items of an array between
/// brackets and the members of an object between braces, name before value
/// with a colon between, items and members with commas between and in
/// stored order, without any blank.
pub open spec fn rendered(v: JsonValue, table: Seq<(u64, String)>) -> Seq<char>
    decreases v, 0int,
{
    match v {
        JsonValue::Null => "null"@,
        JsonValue::Bool(true) => "true"@,
        JsonValue::Bool(false) => "false"@,
        JsonValue::Number(NumberValue::Integer(n)) => integer_text(n),
        JsonValue::Number(NumberValue::Float(bits)) => match float_text(
            table,
            bits,
            table.len() as int,
        ) {
            Some(text) => text,
            None => Seq::empty(),
        },
        JsonValue::String(s) => quoted(s),
        JsonValue::Array(items) => seq!['['] + rendered_items(items, items.len() as int, table)
            + seq![']'],
        JsonValue::Object(members) => seq!['{'] + rendered_members(
            members,
            members.len() as int,
            table,
        ) + seq!['}'],
    }
}

/// The first `n` items as JSON text with commas between.
pub open spec fn rendered_items(items: Seq<JsonValue>, n: int, table: Seq<(u64, String)>) -> Seq<
    char,
>
    decreases items, n,
{
    if 0 < n <= items.len() {
        rendered_items(items, n - 1, table) + (if n > 1 {
            seq![',']
        } else {
            Seq::empty()
        }) + rendered(items[n - 1], table)
    } else {
        Seq::empty()
    }
}

/// The first `n` members as JSON text with commas between.
pub open spec fn rendered_members(
    members: Seq<(Seq<char>, JsonValue)>,
    n: int,
    table: Seq<(u64, String)>,
) -> Seq<char>
    decreases members, n,
{
    if 0 < n <= members.len() {
        rendered_members(members, n - 1, table) + (if n > 1 {
            seq![',']
        } else {
            Seq::empty()
        }) + quoted(members[n - 1].0) + seq![':'] + rendered(members[n - 1].1, table)
    } else {
        Seq::empty()
    }
}

/// Appends the character, by `String::push`: the text is then the text
/// before with the character behind it.
#[verifier::external_body]
pub(crate) fn push_char(out: &mut String, c: char)
    ensures
        final(out)@ == old(out)@.push(c),
{
    out.push(c)
}

/// The digit of a number from 0 to 15 in base sixteen.
fn digit_char(n: u8) -> (c: char)
    requires
        n < 16,
    ensures
        c == hex_digit(n as int),
{
    if n < 10 {
        ('0' as u8 + n) as char
    } else {
        ('a' as u8 + n - 10) as char
    }
}

/// Appends a character as it stands inside a JSON string.
fn push_escaped_char(out: &mut String, c: char)
    ensures
        final(out)@ == old(out)@ + escaped_char(c),
{
    if c == '"' {
        push_char(out, '\\');
        push_char(out, '"');
    } else if c == '\\' {
        push_char(out, '\\');
        push_char(out, '\\');
    } else if c == '\u{8}' {
        push_char(out, '\\');
        push_char(out, 'b');
    } else if c == '\u{c}' {
        push_char(out, '\\');
        push_char(out, 'f');
    } else if c == '\n' {
        push_char(out, '\\');
        push_char(out, 'n');
    } else if c == '\r' {
        push_char(out, '\\');
        push_char(out, 'r');
    } else if c == '\t' {
        push_char(out, '\\');
        push_char(out, 't');
    } else if (c as u32) < 0x20 {
        let code = c as u32 as u8;
        push_char(out, '\\');
        push_char(out, 'u');
        push_char(out, '0');
        push_char(out, '0');
        push_char(out, digit_char(code / 16));
        push_char(out, digit_char(code % 16));
    } else {
        push_char(out, c);
    }
    assert(out@ =~= old(out)@ + escaped_char(c));
}

/// Appends a text as a JSON string.
pub fn push_quoted(out: &mut String, s: &str)
    ensures
        final(out)@ == old(out)@ + quoted(s@),
{
    push_char(out, '"');
    let ghost start = out@;
    let ghost mut done: int = 0;
    let mut it = s.chars();
    loop
        invariant
            0 <= done <= s@.len(),
            it.remaining() == s@.subrange(done, s@.len() as int),
            it.obeys_prophetic_iter_laws(),
            it.decrease() is Some,
            out@ == start + escaped(s@, done),
        ensures
            done == s@.len(),
        decreases s@.len() - done,
    {
        let ghost before = it.remaining();
        match it.next() {
            Some(c) => {
                push_escaped_char(out, c);
                proof {
                    assert(c == s@[done]);
                    done = done + 1;
                    assert(out@ =~= start + escaped(s@, done));
                    assert(it.remaining() =~= s@.subrange(done, s@.len() as int));
                }
            },
            None => {
                assert(before.len() == 0);
                break;
            },
        }
    }
    push_char(out, '"');
    assert(out@ =~= old(out)@ + quoted(s@));
}

/// Appends a number in decimal digits.
pub fn push_decimal(out: &mut String, n: u64)
    ensures
        final(out)@ == old(out)@ + decimal(n as int),
    decreases n,
{
    if n >= 10 {
        push_decimal(out, n / 10);
    }
    push_char(out, digit_char((n % 10) as u8));
    assert(out@ =~= old(out)@ + decimal(n as int));
}

/// The text that the table gives for the floating-point number of the
/// given bits.
pub(crate) fn find_float_text(table: &Vec<(u64, String)>, bits: u64) -> (r: Option<&str>)
    ensures
        match r {
            Some(text) => float_text(table@, bits, table.len() as int) == Some(text@),
            None => float_text(table@, bits, table.len() as int) is None,
        },
{
    let mut i: usize = 0;
    while i < table.len()
        invariant
            0 <= i <= table.len(),
            float_text(table@, bits, i as int) is None,
        decreases table.len() - i,
    {
        if table[i].0 == bits {
            proof {
                lemma_float_text_stays(table@, bits, i + 1, table.len() as int);
            }
            return Some(table[i].1.as_str());
        }
        i += 1;
    }
    None
}

/// The text that a table gives for a number is that of its first entry for
/// the number, however many entries follow.
pub proof fn lemma_float_text_stays(table: Seq<(u64, String)>, bits: u64, n: int, m: int)
    requires
        0 <= n <= m <= table.len(),
        float_text(table, bits, n) is Some,
    ensures
        float_text(table, bits, m) == float_text(table, bits, n),
    decreases m,
{
    if n < m {
        lemma_float_text_stays(table, bits, n, m - 1);
    }
}

impl Number {
    /// Appends the number as JSON text; `false` and nothing appended where
    /// it is a floating-point number without a text in the table.
    pub fn write_text(&self, table: &Vec<(u64, String)>, out: &mut String) -> (r: bool)
        ensures
            r == covers(table@, JsonValue::Number(self@)),
            final(out)@ == if r {
                old(out)@ + rendered(JsonValue::Number(self@), table@)
            } else {
                old(out)@
            },
    {
        match *self {
            Number::Int64(v) => {
                if v < 0 {
                    push_char(out, '-');
                    push_decimal(out, (-(v + 1)) as u64 + 1);
                } else {
                    push_decimal(out, v as u64);
                }
                assert(out@ =~= old(out)@ + integer_text(v as int));
                true
            },
            Number::UInt64(v) => {
                push_decimal(out, v);
                true
            },
            Number::Float64(bits) => match find_float_text(table, bits) {
                Some(text) => {
                    out.append(text);
                    true
                },
                None => false,
            },
        }
    }
}

impl Value {
    /// Appends the value as JSON text. Where the table lacks the text of a
    /// floating-point number in the value, the result is `false`, and what
    /// was appended is of no use.
    pub fn write_text(&self, table: &Vec<(u64, String)>, out: &mut String) -> (r: bool)
        ensures
            r == covers(table@, self@),
            r ==> final(out)@ == old(out)@ + rendered(self@, table@),
        decreases self,
    {
        match self {
            Value::Null => {
                out.append("null");
                true
            },
            Value::Bool(true) => {
                out.append("true");
                true
            },
            Value::Bool(false) => {
                out.append("false");
                true
            },
            Value::Number(n) => n.write_text(table, out),
            Value::String(s) => {
                push_quoted(out, s.as_str());
                true
            },
            Value::Array(items) => {
                proof {
                    lemma_array_view(*self);
                }
                let ghost view = self@->Array_0;
                let n = items.len();
                push_char(out, '[');
                let ghost start = out@;
                let mut i: usize = 0;
                while i < n
                    invariant
                        *self is Array,
                        self->Array_0 == *items,
                        self@ == JsonValue::Array(view),
                        n == items.len(),
                        0 <= i <= n,
                        view.len() == n,
                        forall|k: int| 0 <= k < n ==> #[trigger] view[k] == items[k]@,
                        forall|k: int| 0 <= k < i ==> covers(table@, #[trigger] view[k]),
                        out@ == start + rendered_items(view, i as int, table@),
                    decreases n - i,
                {
                    proof {
                        axiom_vec_index_decreases(*items, i as int);
                    }
                    if i > 0 {
                        push_char(out, ',');
                    }
                    let ok = items[i].write_text(table, out);
                    if !ok {
                        assert(!covers(table@, view[i as int]));
                        return false;
                    }
                    i += 1;
                    assert(out@ =~= start + rendered_items(view, i as int, table@));
                }
                push_char(out, ']');
                assert(out@ =~= old(out)@ + rendered(self@, table@));
                true
            },
            Value::Object(members) => {
                proof {
                    lemma_object_view(*self);
                }
                let ghost view = self@->Object_0;
                let n = members.len();
                push_char(out, '{');
                let ghost start = out@;
                let mut i: usize = 0;
                while i < n
                    invariant
                        *self is Object,
                        self->Object_0 == *members,
                        self@ == JsonValue::Object(view),
                        n == members.len(),
                        0 <= i <= n,
                        view.len() == n,
                        forall|k: int|
                            0 <= k < n ==> #[trigger] view[k] == (members[k].0@, members[k].1@),
                        forall|k: int| 0 <= k < i ==> covers(table@, (#[trigger] view[k]).1),
                        out@ == start + rendered_members(view, i as int, table@),
                    decreases n - i,
                {
                    proof {
                        axiom_vec_index_decreases(*members, i as int);
                    }
                    assert(view[i as int] == (members[i as int].0@, members[i as int].1@));
                    if i > 0 {
                        push_char(out, ',');
                    }
                    push_quoted(out, members[i].0.as_str());
                    push_char(out, ':');
                    let ok = members[i].1.write_text(table, out);
                    if !ok {
                        assert(!covers(table@, view[i as int].1));
                        return false;
                    }
                    i += 1;
                    assert(out@ =~= start + rendered_members(view, i as int, table@));
                }
                push_char(out, '}');
                assert(out@ =~= old(out)@ + rendered(self@, table@));
                true
            },
        }
    }
}

/// The value that the buffer holds as JSON text, with the texts that the
/// table gives for its floating-point numbers; `None` where the buffer
/// holds no value or the table lacks the text of a number in it.
pub fn to_string_with(buf: &[u8], table: &Vec<(u64, String)>) -> (r: Option<String>)
    ensures
        match r {
            Some(text) => decoded(buf@) is Some && covers(table@, decoded(buf@)->0) && text@
                == rendered(decoded(buf@)->0, table@),
            None => !(decoded(buf@) is Some && covers(table@, decoded(buf@)->0)),
        },
{
    match from_slice(buf) {
        Ok(v) => {
            let mut out = String::new();
            if v.write_text(table, &mut out) {
                Some(out)
            } else {
                None
            }
        },
        Err(_) => None,
    }
}

/// The text that a null, boolean, number or string converts to: the text
/// of a string itself, `true` and `false` for the booleans, a number as it
/// is written in JSON text. Null converts to none, and neither does a
/// floating-point number whose text the table lacks.
pub open spec fn text_of(v: JsonValue, table: Seq<(u64, String)>) -> Option<Seq<char>> {
    match v {
        JsonValue::String(s) => Some(s),
        JsonValue::Bool(_) => Some(rendered(v, table)),
        JsonValue::Number(_) => if covers(table, v) {
            Some(rendered(v, table))
        } else {
            None
        },
        _ => None,
    }
}

/// The text that the value in the buffer converts to, with the texts that
/// the table gives for floating-point numbers. A value that does not
/// convert is a type mismatch, a buffer that holds nothing that can be read
/// an encoding error.
pub fn to_str_with(buf: &[u8], table: &Vec<(u64, String)>) -> (r: Result<String, ErrorCode>)
    ensures
        match r {
            Ok(text) => readable(buf@) matches Readable::Scalar(v) && text_of(v, table@) == Some(
                text@,
            ),
            Err(e) => match readable(buf@) {
                Readable::Scalar(v) => text_of(v, table@) is None && e.kind
                    == ErrorKind::TypeMismatch,
                Readable::Container => e.kind == ErrorKind::TypeMismatch,
                Readable::Broken => e.kind == ErrorKind::InvalidEncoding,
            },
        },
{
    if let Some(s) = as_str(buf) {
        return Ok(s.to_owned());
    }
    if let Some(b) = as_bool(buf) {
        return Ok(if b {
            "true".to_owned()
        } else {
            "false".to_owned()
        });
    }
    if let Some(n) = as_number(buf) {
        let mut out = String::new();
        if n.write_text(table, &mut out) {
            return Ok(out);
        }
    }
    Err(not_convertible(buf))
}

} // verus!
