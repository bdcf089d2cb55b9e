//! Applying a path to a value in its binary form.
use crate::decode::{decoded, from_slice};
use crate::format::{
    array_item, count, holds_array, holds_object, member_at, member_by_name, JsonValue, ARRAY_KIND,
    LIMIT, OBJECT_KIND,
};
use crate::functions::{child_at, get_by_name, read_header};

use crate::jsonpath::path::{
    lemma_selector_views, CompareOp, Expr, ExprView, JsonPath, Literal, LiteralView, Selector,
    SelectorView,
};
use crate::number::{number_key, Number, NumberValue};
use crate::order::{order, sign};
use crate::value::Value;
use vstd::prelude::*;
use vstd::slice::slice_to_vec;

use vstd::std_specs::vec::axiom_vec_index_decreases;
use vstd::utf8::encode_utf8;

verus! {

/// The buffer, where there is one.
pub open spec fn one(found: Option<Seq<u8>>) -> Seq<Seq<u8>> {
    match found {
        Some(buf) => seq![buf],
        None => Seq::empty(),
    }
}

/// The index that `i` stands for in an array of `n` items: itself, or,
/// where it is negative, counted from the end.
pub open spec fn resolved(i: int, n: int) -> int {
    if i < 0 {
        n + i
    } else {
        i
    }
}

/// The `n` items of an array from the index `from` on that can be read.
pub open spec fn items_between(buf: Seq<u8>, from: int, n: int) -> Seq<Seq<u8>>
    decreases n,
{
    if n <= 0 {
        Seq::empty()
    } else {
        items_between(buf, from, n - 1) + one(array_item(buf, from + n - 1))
    }
}

/// The values of the first `n` members of an object that can be read.
pub open spec fn first_values(buf: Seq<u8>, n: int) -> Seq<Seq<u8>>
    decreases n,
{
    if n <= 0 {
        Seq::empty()
    } else {
        first_values(buf, n - 1) + one(member_at(buf, n - 1))
    }
}

/// The items of an array from the index that `i` stands for to the one
/// that `j` stands for, both included, as far as the array has them.
pub open spec fn items_in_range(buf: Seq<u8>, i: int, j: int) -> Seq<Seq<u8>> {
    let n = count(buf);
    let low = if resolved(i, n) < 0 {
        0
    } else {
        resolved(i, n)
    };
    let high = if resolved(j, n) >= n {
        n - 1
    } else {
        resolved(j, n)
    };
    if holds_array(buf) {
        items_between(buf, low, high - low + 1)
    } else {
        Seq::empty()
    }
}

/// The integer that a text spells: an optional `-` and digits, where the
/// number fits in 64 bits.
pub open spec fn integer_in(s: Seq<u8>) -> Option<int> {
    if s.len() >= 2 && s[0] == '-' as u8 {
        match digits_value(s, 1, s.len() as int) {
            Some(n) => if n <= 0x8000_0000_0000_0000 {
                Some(-n)
            } else {
                None
            },
            None => None,
        }
    } else if s.len() >= 1 {
        match digits_value(s, 0, s.len() as int) {
            Some(n) => if n <= u64::MAX {
                Some(n)
            } else {
                None
            },
            None => None,
        }
    } else {
        None
    }
}

/// The number that the bytes from `from` up to `to` spell in decimal
/// digits; `None` where one of them is no digit.
pub open spec fn digits_value(s: Seq<u8>, from: int, to: int) -> Option<int>
    decreases to - from,
{
    if to <= from {
        Some(0)
    } else if '0' as u8 <= s[to - 1] <= '9' as u8 {
        match digits_value(s, from, to - 1) {
            Some(n) => Some(10 * n + (s[to - 1] - '0' as u8)),
            None => None,
        }
    } else {
        None
    }
}

/// How two values compare in a filter: -1, 0 or 1 as in the order of
/// values; but a number and a string compare as numbers where the string
/// spells an integer, and not at all where it does not.
pub open spec fn comparison(x: JsonValue, y: JsonValue) -> Option<int> {
    match (x, y) {
        (JsonValue::Number(n), JsonValue::String(s)) => match integer_in(encode_utf8(s)) {
            Some(m) => Some(sign(number_key(n) - number_key(NumberValue::Integer(m)))),
            None => None,
        },
        (JsonValue::String(s), JsonValue::Number(n)) => match integer_in(encode_utf8(s)) {
            Some(m) => Some(sign(number_key(NumberValue::Integer(m)) - number_key(n))),
            None => None,
        },
        _ => Some(order(x, y)),
    }
}

/// Whether a comparison holds of two values. Values that do not compare
/// are not equal, and neither is before the other.
pub open spec fn is_related(op: CompareOp, x: JsonValue, y: JsonValue) -> bool {
    let c = comparison(x, y);
    match op {
        CompareOp::Equal => c == Some(0int),
        CompareOp::NotEqual => c != Some(0int),
        CompareOp::Less => c == Some(-1int),
        CompareOp::Greater => c == Some(1int),
        CompareOp::LessOrEqual => c == Some(-1int) || c == Some(0int),
        CompareOp::GreaterOrEqual => c == Some(1int) || c == Some(0int),
    }
}

/// The value that a literal stands for; a floating-point literal stands
/// for none.
pub open spec fn literal_value(l: LiteralView) -> Option<JsonValue> {
    match l {
        LiteralView::Null => Some(JsonValue::Null),
        LiteralView::Bool(b) => Some(JsonValue::Bool(b)),
        LiteralView::Number(n) => Some(JsonValue::Number(n)),
        LiteralView::String(s) => Some(JsonValue::String(s)),
        LiteralView::Float(_) => None,
    }
}

/// The values that the first `n` of the buffers hold, those left out that
/// hold none.
pub open spec fn values_in(bufs: Seq<Seq<u8>>, n: int) -> Seq<JsonValue>
    decreases n,
{
    if 0 < n <= bufs.len() {
        values_in(bufs, n - 1) + (match decoded(bufs[n - 1]) {
            Some(v) => seq![v],
            None => Seq::empty(),
        })
    } else {
        Seq::empty()
    }
}

/// What a selector picks from a value.
///
/// A member selector picks the member of that name of an object; the
/// wildcard member selector all members of an object; an index selector the
/// item at that index of an array; a range selector the items in that range
/// of an array; the wildcard index selector all items of an array, and a
/// value that is no array itself; a filter the value itself where the
/// filter holds of it. From a value of another type a selector picks
/// nothing, and a child that cannot be read is left out.
pub open spec fn picked(buf: Seq<u8>, selector: SelectorView) -> Seq<Seq<u8>>
    decreases selector, 0int,
{
    match selector {
        SelectorView::Member(name) => one(member_by_name(buf, encode_utf8(name), false)),
        SelectorView::AnyMember => if holds_object(buf) {
            first_values(buf, count(buf))
        } else {
            Seq::empty()
        },
        SelectorView::Index(i) => one(array_item(buf, resolved(i, count(buf)))),
        SelectorView::Range(i, j) => items_in_range(buf, i, j),
        SelectorView::RangeToLast(i) => items_in_range(buf, i, count(buf) - 1),
        SelectorView::AnyIndex => if holds_array(buf) {
            items_between(buf, 0, count(buf))
        } else {
            seq![buf]
        },
        SelectorView::Filter(e) => if holds(e, buf) {
            seq![buf]
        } else {
            Seq::empty()
        },
    }
}

/// What a selector picks from the first `n` of the values, in their order.
pub open spec fn picked_from(bufs: Seq<Seq<u8>>, n: int, selector: SelectorView) -> Seq<Seq<u8>>
    decreases selector, n,
{
    if 0 < n <= bufs.len() {
        picked_from(bufs, n - 1, selector) + picked(bufs[n - 1], selector)
    } else {
        Seq::empty()
    }
}

/// What the first `n` of the selectors arrive at from the given values:
/// one after the other, each picks from all values that the one before
/// arrived at.
pub open spec fn selected(bufs: Seq<Seq<u8>>, selectors: Seq<SelectorView>, n: int) -> Seq<
    Seq<u8>,
>
    decreases selectors, n,
{
    if 0 < n <= selectors.len() {
        let before = selected(bufs, selectors, n - 1);
        picked_from(before, before.len() as int, selectors[n - 1])
    } else {
        bufs
    }
}

/// The values that a part of a filter stands for, asked of a value: the
/// value of a literal, the values that a path arrives at, and the truth of
/// anything else.
pub open spec fn operands(e: ExprView, buf: Seq<u8>) -> Seq<JsonValue>
    decreases e, 1int,
{
    match e {
        ExprView::Literal(l) => match literal_value(l) {
            Some(v) => seq![v],
            None => Seq::empty(),
        },
        ExprView::Path(selectors) => {
            let found = selected(seq![buf], selectors, selectors.len() as int);
            values_in(found, found.len() as int)
        },
        _ => seq![JsonValue::Bool(holds(e, buf))],
    }
}

/// Whether a filter holds of a value.
///
/// `OR`, `AND` and `NOT` are what they say. A comparison holds where it
/// holds of some value that its left side stands for and some value that
/// its right side stands for. A literal or a path alone holds where it
/// stands for some value.
pub open spec fn holds(e: ExprView, buf: Seq<u8>) -> bool
    decreases e, 0int,
{
    match e {
        ExprView::Or(a, b) => holds(*a, buf) || holds(*b, buf),
        ExprView::And(a, b) => holds(*a, buf) && holds(*b, buf),
        ExprView::Not(a) => !holds(*a, buf),
        ExprView::Compare(op, a, b) => some_related(op, operands(*a, buf), operands(*b, buf)),
        ExprView::Literal(l) => literal_value(l) is Some,
        ExprView::Path(selectors) => {
            let found = selected(seq![buf], selectors, selectors.len() as int);
            values_in(found, found.len() as int).len() > 0
        },
    }
}

/// The bytes of the buffers.
pub open spec fn buffers(bufs: Seq<Vec<u8>>) -> Seq<Seq<u8>> {
    Seq::new(bufs.len(), |i: int| bufs[i]@)
}

/// What the values are.
pub open spec fn views(values: Seq<Value>) -> Seq<JsonValue> {
    Seq::new(values.len(), |i: int| values[i]@)
}

/// The digits of more bytes spell no smaller a number.
proof fn lemma_digits_grow(s: Seq<u8>, from: int, k: int, to: int)
    requires
        from <= k <= to <= s.len(),
        digits_value(s, from, to) is Some,
    ensures
        digits_value(s, from, k) is Some,
        0 <= digits_value(s, from, k)->0 <= digits_value(s, from, to)->0,
    decreases to - k,
{
    if k < to {
        lemma_digits_grow(s, from, k, to - 1);
        lemma_digits_grow(s, from, to - 1, to - 1);
    } else {
        lemma_digits_positive(s, from, to);
    }
}

proof fn lemma_digits_positive(s: Seq<u8>, from: int, to: int)
    requires
        from <= to <= s.len(),
        digits_value(s, from, to) is Some,
    ensures
        digits_value(s, from, to)->0 >= 0,
    decreases to - from,
{
    if from < to {
        lemma_digits_positive(s, from, to - 1);
    }
}

/// Once the digits fail to spell a number, more bytes do not mend it.
proof fn lemma_digits_stay_none(s: Seq<u8>, from: int, k: int, to: int)
    requires
        from <= k <= to <= s.len(),
        digits_value(s, from, k) is None,
    ensures
        digits_value(s, from, to) is None,
    decreases to - k,
{
    if k < to {
        lemma_digits_stay_none(s, from, k, to - 1);
    }
}

/// The integer that the text spells.
pub fn parse_integer(text: &[u8]) -> (r: Option<Number>)
    ensures
        match r {
            Some(n) => integer_in(text@) == Some(n@->Integer_0) && n@ is Integer,
            None => integer_in(text@) is None,
        },
{
    let n = text.len();
    if n == 0 {
        return None;
    }
    let negative = n >= 2 && text[0] == '-' as u8;
    let from: usize = if negative {
        1
    } else {
        0
    };
    let mut value: u64 = 0;
    let mut k = from;
    while k < n
        invariant
            n == text.len(),
            n >= 1,
            negative == (n >= 2 && text[0] == '-' as u8),
            from == if negative {
                1int
            } else {
                0int
            },
            from <= k <= n,
            digits_value(text@, from as int, k as int) == Some(value as int),
        decreases n - k,
    {
        let c = text[k];
        if c < '0' as u8 || c > '9' as u8 {
            proof {
                assert(digits_value(text@, from as int, k + 1) is None);
                lemma_digits_stay_none(text@, from as int, k + 1, n as int);
            }
            return None;
        }
        let d = (c - '0' as u8) as u64;
        if value > (u64::MAX - d) / 10 {
            proof {
                if digits_value(text@, from as int, n as int) is Some {
                    lemma_digits_grow(text@, from as int, k + 1, n as int);
                    assert(digits_value(text@, from as int, k + 1) == Some(10 * value + d));
                }
            }
            return None;
        }
        value = 10 * value + d;
        k += 1;
    }
    if negative {
        if value < 0x8000_0000_0000_0000 {
            Some(Number::Int64(-(value as i64)))
        } else if value == 0x8000_0000_0000_0000 {
            Some(Number::Int64(i64::MIN))
        } else {
            None
        }
    } else {
        Some(Number::UInt64(value))
    }
}

/// How two values compare in a filter.
pub(crate) fn compare_in_filter(x: &Value, y: &Value) -> (r: Option<i8>)
    ensures
        match r {
            Some(c) => comparison(x@, y@) == Some(c as int),
            None => comparison(x@, y@) is None,
        },
{
    match (x, y) {
        (Value::Number(n), Value::String(s)) => match parse_integer(s.as_str().as_bytes()) {
            Some(m) => {
                let a = n.key();
                let b = m.key();
                Some(
                    if a < b {
                        -1
                    } else if a > b {
                        1
                    } else {
                        0
                    },
                )
            },
            None => None,
        },
        (Value::String(s), Value::Number(n)) => match parse_integer(s.as_str().as_bytes()) {
            Some(m) => {
                let a = m.key();
                let b = n.key();
                Some(
                    if a < b {
                        -1
                    } else if a > b {
                        1
                    } else {
                        0
                    },
                )
            },
            None => None,
        },
        _ => Some(x.order_sign(y)),
    }
}

/// Whether a comparison holds of two values.
pub(crate) fn related(op: CompareOp, x: &Value, y: &Value) -> (r: bool)
    ensures
        r == is_related(op, x@, y@),
{
    let c = compare_in_filter(x, y);
    match op {
        CompareOp::Equal => matches!(c, Some(0)),
        CompareOp::NotEqual => !matches!(c, Some(0)),
        CompareOp::Less => matches!(c, Some(-1)),
        CompareOp::Greater => matches!(c, Some(1)),
        CompareOp::LessOrEqual => matches!(c, Some(-1)) || matches!(c, Some(0)),
        CompareOp::GreaterOrEqual => matches!(c, Some(1)) || matches!(c, Some(0)),
    }
}

/// Whether a comparison holds of some value on the left and some on the
/// right.
pub(crate) fn any_related(op: CompareOp, left: &Vec<Value>, right: &Vec<Value>) -> (r: bool)
    ensures
        r == exists|i: int, j: int|
            0 <= i < left.len() && 0 <= j < right.len() && is_related(
                op,
                #[trigger] left[i]@,
                #[trigger] right[j]@,
            ),
{
    let mut i: usize = 0;
    while i < left.len()
        invariant
            0 <= i <= left.len(),
            forall|a: int, b: int|
                0 <= a < i && 0 <= b < right.len() ==> !is_related(
                    op,
                    #[trigger] left[a]@,
                    #[trigger] right[b]@,
                ),
        decreases left.len() - i,
    {
        let mut j: usize = 0;
        while j < right.len()
            invariant
                0 <= i < left.len(),
                0 <= j <= right.len(),
                forall|b: int|
                    0 <= b < j ==> !is_related(op, left[i as int]@, #[trigger] right[b]@),
            decreases right.len() - j,
        {
            if related(op, &left[i], &right[j]) {
                return true;
            }
            j += 1;
        }
        i += 1;
    }
    false
}

/// Appends the `n` items of the array from the index `from` on that can be
/// read.
pub(crate) fn push_items(buf: &[u8], total: usize, from: usize, n: usize, out: &mut Vec<Vec<u8>>)
    requires
        holds_array(buf@),
        total == count(buf@),
        from + n <= total,
    ensures
        buffers(final(out)@) == buffers(old(out)@) + items_between(buf@, from as int, n as int),
{
    let mut k: usize = 0;
    assert(buffers(out@) =~= buffers(old(out)@) + items_between(buf@, from as int, 0));
    while k < n
        invariant
            holds_array(buf@),
            total == count(buf@),
            total < LIMIT,
            from + n <= total,
            0 <= k <= n,
            buffers(out@) == buffers(old(out)@) + items_between(buf@, from as int, k as int),
        decreases n - k,
    {
        let ghost before = out@;
        match child_at(buf, total, from + k) {
            Some(item) => {
                out.push(item);
                assert(buffers(out@) =~= buffers(before).push(item@));
            },
            None => {},
        }
        k += 1;
        assert(buffers(out@) =~= buffers(old(out)@) + items_between(buf@, from as int, k as int));
    }
}

/// Appends the values of the members of the object that can be read.
pub(crate) fn push_values(buf: &[u8], total: usize, out: &mut Vec<Vec<u8>>)
    requires
        holds_object(buf@),
        total == count(buf@),
    ensures
        buffers(final(out)@) == buffers(old(out)@) + first_values(buf@, total as int),
{
    let mut k: usize = 0;
    assert(buffers(out@) =~= buffers(old(out)@) + first_values(buf@, 0));
    while k < total
        invariant
            holds_object(buf@),
            total == count(buf@),
            total < LIMIT,
            0 <= k <= total,
            buffers(out@) == buffers(old(out)@) + first_values(buf@, k as int),
        decreases total - k,
    {
        let ghost before = out@;
        match child_at(buf, 2 * total, total + k) {
            Some(item) => {
                out.push(item);
                assert(buffers(out@) =~= buffers(before).push(item@));
            },
            None => {},
        }
        k += 1;
        assert(buffers(out@) =~= buffers(old(out)@) + first_values(buf@, k as int));
    }
}

/// Appends the items of the array in the range from `i` to `j`.
pub(crate) fn push_range(buf: &[u8], i: i64, j: i64, out: &mut Vec<Vec<u8>>)
    ensures
        buffers(final(out)@) == buffers(old(out)@) + items_in_range(buf@, i as int, j as int),
{
    let total = match read_header(buf) {
        Some((kind, total)) => if kind == ARRAY_KIND {
            total
        } else {
            assert(buffers(out@) =~= buffers(old(out)@) + items_in_range(
                buf@,
                i as int,
                j as int,
            ));
            return ;
        },
        None => {
            assert(buffers(out@) =~= buffers(old(out)@) + items_in_range(
                buf@,
                i as int,
                j as int,
            ));
            return ;
        },
    };
    let n = total as i64;
    let low = if i < 0 {
        if i < -n {
            0
        } else {
            n + i
        }
    } else {
        i
    };
    let high = if j < 0 {
        n + j
    } else if j >= n {
        n - 1
    } else {
        j
    };
    if low <= high && low < n {
        push_items(buf, total, low as usize, (high - low + 1) as usize, out);
    } else {
        assert(buffers(out@) =~= buffers(old(out)@) + items_in_range(buf@, i as int, j as int));
    }
}

/// The value that a literal stands for.
pub(crate) fn value_of_literal(l: &Literal) -> (r: Option<Value>)
    ensures
        match r {
            Some(v) => literal_value(l@) == Some(v@),
            None => literal_value(l@) is None,
        },
{
    match l {
        Literal::Null => Some(Value::Null),
        Literal::Bool(b) => Some(Value::Bool(*b)),
        Literal::Number(n) => Some(Value::Number(*n)),
        Literal::String(s) => Some(Value::String(s.clone())),
        Literal::Float(_) => None,
    }
}

/// The values that the buffers hold, those left out that hold none.
pub(crate) fn values_of(bufs: &Vec<Vec<u8>>) -> (r: Vec<Value>)
    ensures
        views(r@) == values_in(buffers(bufs@), bufs.len() as int),
{
    let mut out: Vec<Value> = Vec::new();
    let mut k: usize = 0;
    assert(views(out@) =~= values_in(buffers(bufs@), 0));
    while k < bufs.len()
        invariant
            0 <= k <= bufs.len(),
            views(out@) == values_in(buffers(bufs@), k as int),
        decreases bufs.len() - k,
    {
        let ghost before = out@;
        assert(buffers(bufs@)[k as int] == bufs[k as int]@);
        match from_slice(bufs[k].as_slice()) {
            Ok(v) => {
                out.push(v);
                assert(views(out@) =~= views(before).push(v@));
            },
            Err(_) => {},
        }
        k += 1;
        assert(views(out@) =~= values_in(buffers(bufs@), k as int));
    }
    out
}

impl Selector {
    /// Appends what the selector picks from the value in the buffer.
    pub fn pick(&self, buf: &[u8], out: &mut Vec<Vec<u8>>)
        ensures
            buffers(final(out)@) == buffers(old(out)@) + picked(buf@, self@),
        decreases self, 0int,
    {
        match self {
            Selector::Member(name) => {
                match get_by_name(buf, name.as_str(), false) {
                    Some(found) => {
                        out.push(found);
                    },
                    None => {},
                }
            },
            Selector::AnyMember => {
                match read_header(buf) {
                    Some((kind, total)) => if kind == OBJECT_KIND {
                        push_values(buf, total, out);
                    },
                    None => {},
                }
            },
            Selector::Index(i) => {
                match read_header(buf) {
                    Some((kind, total)) => if kind == ARRAY_KIND {
                        let n = total as i64;
                        let at = if *i < 0 {
                            if *i < -n {
                                -1
                            } else {
                                n + *i
                            }
                        } else {
                            *i
                        };
                        if 0 <= at && at < n {
                            match child_at(buf, total, at as usize) {
                                Some(found) => {
                                    out.push(found);
                                },
                                None => {},
                            }
                        }
                    },
                    None => {},
                }
            },
            Selector::Range(i, j) => {
                push_range(buf, *i, *j, out);
            },
            Selector::RangeToLast(i) => {
                match read_header(buf) {
                    Some((kind, total)) => if kind == ARRAY_KIND {
                        push_range(buf, *i, total as i64 - 1, out);
                    },
                    None => {},
                }
            },
            Selector::AnyIndex => {
                match read_header(buf) {
                    Some((kind, total)) => if kind == ARRAY_KIND {
                        push_items(buf, total, 0, total, out);
                    } else {
                        out.push(slice_to_vec(buf));
                    },
                    None => {
                        out.push(slice_to_vec(buf));
                    },
                }
            },
            Selector::Filter(e) => {
                if e.holds(buf) {
                    out.push(slice_to_vec(buf));
                }
            },
        }
        assert(buffers(out@) =~= buffers(old(out)@) + picked(buf@, self@));
    }
}

/// What the selector picks from the values in the buffers, in their order.
pub(crate) fn pick_from(selector: &Selector, bufs: &Vec<Vec<u8>>) -> (out: Vec<Vec<u8>>)
    ensures
        buffers(out@) == picked_from(buffers(bufs@), bufs.len() as int, selector@),
    decreases selector, 1int,
{
    let mut out: Vec<Vec<u8>> = Vec::new();
    let mut k: usize = 0;
    assert(buffers(out@) =~= picked_from(buffers(bufs@), 0, selector@));
    while k < bufs.len()
        invariant
            0 <= k <= bufs.len(),
            buffers(out@) == picked_from(buffers(bufs@), k as int, selector@),
        decreases bufs.len() - k,
    {
        assert(buffers(bufs@)[k as int] == bufs[k as int]@);
        selector.pick(bufs[k].as_slice(), &mut out);
        k += 1;
    }
    out
}

/// What the selectors arrive at from the values in the buffers.
pub(crate) fn select(selectors: &Vec<Selector>, bufs: Vec<Vec<u8>>) -> (out: Vec<Vec<u8>>)
    ensures
        buffers(out@) == selected(
            buffers(bufs@),
            crate::jsonpath::path::selector_views(*selectors, selectors.len() as int),
            selectors.len() as int,
        ),
    decreases selectors, 0int,
{
    let ghost start = buffers(bufs@);
    let ghost all = crate::jsonpath::path::selector_views(*selectors, selectors.len() as int);
    proof {
        lemma_selector_views(*selectors, selectors.len() as int);
    }
    let mut current = bufs;
    let mut k: usize = 0;
    while k < selectors.len()
        invariant
            0 <= k <= selectors.len(),
            all.len() == selectors.len(),
            forall|i: int| 0 <= i < selectors.len() ==> #[trigger] all[i] == selectors[i]@,
            buffers(current@) == selected(start, all, k as int),
        decreases selectors.len() - k,
    {
        proof {
            axiom_vec_index_decreases(*selectors, k as int);
        }
        current = pick_from(&selectors[k], &current);
        k += 1;
    }
    current
}

/// The values that the selectors arrive at from the value in the buffer.
pub(crate) fn path_values(selectors: &Vec<Selector>, buf: &[u8]) -> (r: Vec<Value>)
    ensures
        views(r@) == ({
            let found = selected(
                seq![buf@],
                crate::jsonpath::path::selector_views(*selectors, selectors.len() as int),
                selectors.len() as int,
            );
            values_in(found, found.len() as int)
        }),
    decreases selectors, 1int,
{
    let mut start: Vec<Vec<u8>> = Vec::new();
    start.push(slice_to_vec(buf));
    assert(buffers(start@) =~= seq![buf@]);
    let found = select(selectors, start);
    values_of(&found)
}

/// What a filter is, part by part.
pub proof fn lemma_expr_view(e: Expr)
    ensures
        e@ == match e {
            Expr::Or(a, b) => ExprView::Or(Box::new((*a)@), Box::new((*b)@)),
            Expr::And(a, b) => ExprView::And(Box::new((*a)@), Box::new((*b)@)),
            Expr::Not(a) => ExprView::Not(Box::new((*a)@)),
            Expr::Compare(op, a, b) => ExprView::Compare(op, Box::new((*a)@), Box::new((*b)@)),
            Expr::Literal(l) => ExprView::Literal(l@),
            Expr::Path(selectors) => ExprView::Path(
                crate::jsonpath::path::selector_views(selectors, selectors.len() as int),
            ),
        },
{
}

/// The comparison holds of some value on the left and some on the right.
pub open spec fn some_related(op: CompareOp, left: Seq<JsonValue>, right: Seq<JsonValue>) -> bool {
    exists|i: int, j: int|
        0 <= i < left.len() && 0 <= j < right.len() && is_related(
            op,
            #[trigger] left[i],
            #[trigger] right[j],
        )
}

proof fn lemma_some_related(op: CompareOp, left: Seq<Value>, right: Seq<Value>)
    ensures
        some_related(op, views(left), views(right)) == exists|i: int, j: int|
            0 <= i < left.len() && 0 <= j < right.len() && is_related(
                op,
                #[trigger] left[i]@,
                #[trigger] right[j]@,
            ),
{
    let l = views(left);
    let m = views(right);
    if some_related(op, l, m) {
        let (i, j) = choose|i: int, j: int|
            0 <= i < l.len() && 0 <= j < m.len() && is_related(
                op,
                #[trigger] l[i],
                #[trigger] m[j],
            );
        assert(is_related(op, left[i]@, right[j]@));
    }
    if exists|i: int, j: int|
        0 <= i < left.len() && 0 <= j < right.len() && is_related(
            op,
            #[trigger] left[i]@,
            #[trigger] right[j]@,
        ) {
        let (i, j) = choose|i: int, j: int|
            0 <= i < left.len() && 0 <= j < right.len() && is_related(
                op,
                #[trigger] left[i]@,
                #[trigger] right[j]@,
            );
        assert(is_related(op, l[i], m[j]));
    }
}

/// One value.
fn single(v: Value) -> (r: Vec<Value>)
    ensures
        views(r@) == seq![v@],
{
    let mut out: Vec<Value> = Vec::new();
    out.push(v);
    assert(views(out@) =~= seq![v@]);
    out
}

/// No value.
fn nothing() -> (r: Vec<Value>)
    ensures
        views(r@) == Seq::<JsonValue>::empty(),
{
    let out: Vec<Value> = Vec::new();
    assert(views(out@) =~= Seq::<JsonValue>::empty());
    out
}

impl Expr {
    /// The values that this part of a filter stands for, asked of the value
    /// in the buffer.
    pub fn operands(&self, buf: &[u8]) -> (r: Vec<Value>)
        ensures
            views(r@) == operands(self@, buf@),
        decreases self, 1int,
    {
        proof {
            lemma_expr_view(*self);
        }
        match self {
            Expr::Literal(l) => {
                assert(operands(self@, buf@) == match literal_value(l@) {
                    Some(v) => seq![v],
                    None => Seq::empty(),
                });
                match value_of_literal(l) {
                    Some(v) => single(v),
                    None => nothing(),
                }
            },
            Expr::Path(selectors) => {
                proof {
                    lemma_selector_views(*selectors, selectors.len() as int);
                }
                path_values(selectors, buf)
            },
            _ => {
                let r = single(Value::Bool(self.holds(buf)));
                assert(operands(self@, buf@) == seq![JsonValue::Bool(holds(self@, buf@))]);
                r
            },
        }
    }

    /// Whether the filter holds of the value in the buffer.
    pub fn holds(&self, buf: &[u8]) -> (r: bool)
        ensures
            r == holds(self@, buf@),
        decreases self, 0int,
    {
        proof {
            lemma_expr_view(*self);
        }
        match self {
            Expr::Or(a, b) => {
                assert(holds(self@, buf@) == (holds((**a)@, buf@) || holds((**b)@, buf@)));
                a.holds(buf) || b.holds(buf)
            },
            Expr::And(a, b) => {
                assert(holds(self@, buf@) == (holds((**a)@, buf@) && holds((**b)@, buf@)));
                a.holds(buf) && b.holds(buf)
            },
            Expr::Not(a) => {
                assert(holds(self@, buf@) == !holds((**a)@, buf@));
                !a.holds(buf)
            },
            Expr::Compare(op, a, b) => {
                let left = a.operands(buf);
                let right = b.operands(buf);
                let r = any_related(*op, &left, &right);
                proof {
                    let l = operands((**a)@, buf@);
                    let m = operands((**b)@, buf@);
                    assert(holds(self@, buf@) == some_related(*op, l, m));
                    lemma_some_related(*op, left@, right@);
                }
                r
            },
            Expr::Literal(l) => {
                assert(holds(self@, buf@) == literal_value(l@) is Some);
                value_of_literal(l).is_some()
            },
            Expr::Path(selectors) => {
                proof {
                    lemma_selector_views(*selectors, selectors.len() as int);
                }
                let found = path_values(selectors, buf);
                assert(holds(self@, buf@) == (views(found@).len() > 0));
                found.len() > 0
            },
        }
    }
}

/// The values that the path arrives at from the value in the buffer, each
/// as a buffer of its own, in the order in which it arrives at them.
///
/// The path starts at the value in the buffer, and its selectors are
/// applied one after the other to all values that the one before arrived
/// at. A child that cannot be read is left out.
pub fn get_by_path(buf: &[u8], path: &JsonPath) -> (r: Vec<Vec<u8>>)
    ensures
        buffers(r@) == selected(seq![buf@], path@, path@.len() as int),
{
    let mut start: Vec<Vec<u8>> = Vec::new();
    start.push(slice_to_vec(buf));
    assert(buffers(start@) =~= seq![buf@]);
    proof {
        lemma_selector_views(path.selectors, path.selectors.len() as int);
    }
    select(&path.selectors, start)
}

/// From the buffer of an array an index selector picks the buffer of the
/// item at that index, counted from the end where the index is negative.
pub proof fn law_index_picks_item(items: Seq<JsonValue>, i: int)
    requires
        crate::format::fits(JsonValue::Array(items)),
    ensures
        picked(crate::format::encoding(JsonValue::Array(items)), SelectorView::Index(i)) == ({
            let at = resolved(i, items.len() as int);
            if 0 <= at < items.len() {
                seq![crate::format::encoding(items[at])]
            } else {
                Seq::empty()
            }
        }),
{
    crate::laws::law_array_length(items);
    crate::laws::law_array_item(items, resolved(i, items.len() as int));
}

/// From the buffer of an array the wildcard index selector picks the
/// buffers of all items, in their order.
pub proof fn law_wildcard_picks_items(items: Seq<JsonValue>)
    requires
        crate::format::fits(JsonValue::Array(items)),
    ensures
        picked(crate::format::encoding(JsonValue::Array(items)), SelectorView::AnyIndex)
            == Seq::new(items.len(), |k: int| crate::format::encoding(items[k])),
{
    crate::laws::law_array_length(items);
    lemma_first_items(items, items.len() as int);
}

proof fn lemma_first_items(items: Seq<JsonValue>, n: int)
    requires
        crate::format::fits(JsonValue::Array(items)),
        0 <= n <= items.len(),
    ensures
        items_between(crate::format::encoding(JsonValue::Array(items)), 0, n) == Seq::new(
            n as nat,
            |k: int| crate::format::encoding(items[k]),
        ),
    decreases n,
{
    let buf = crate::format::encoding(JsonValue::Array(items));
    if n > 0 {
        lemma_first_items(items, n - 1);
        crate::laws::law_array_item(items, n - 1);
        assert(items_between(buf, 0, n) =~= Seq::new(
            n as nat,
            |k: int| crate::format::encoding(items[k]),
        ));
    } else {
        assert(items_between(buf, 0, n) =~= Seq::new(
            n as nat,
            |k: int| crate::format::encoding(items[k]),
        ));
    }
}

/// From the buffer of an object a member selector picks the buffer of the
/// value of the last member of that name.
pub proof fn law_member_picks_last(
    members: Seq<(Seq<char>, JsonValue)>,
    name: Seq<char>,
    k: int,
)
    requires
        crate::format::fits(JsonValue::Object(members)),
        0 <= k < members.len(),
        members[k].0 == name,
        forall|j: int| k < j < members.len() ==> (#[trigger] members[j]).0 != name,
    ensures
        picked(crate::format::encoding(JsonValue::Object(members)), SelectorView::Member(name))
            == seq![crate::format::encoding(members[k].1)],
{
    crate::laws::law_lookup_finds_last(members, name, false, k);
}

} // verus!