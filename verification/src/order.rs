//! The order of JSON values, and the projection of a value onto bytes whose
//! order as texts is the order of the values.
use crate::decode::{decoded, from_slice};
use crate::format::{long_bytes, JsonValue};

use crate::number::{number_key, Number};
use crate::value::{lemma_array_view, lemma_object_view, push_bytes, push_long, Value};
use vstd::prelude::*;
use vstd::std_specs::vec::axiom_vec_index_decreases;

use vstd::utf8::encode_utf8;

verus! {

/// The rank of the type of a value: null is above arrays, arrays above
/// objects, objects above strings, strings above numbers, numbers above
/// `true`, and `true` above `false`.
pub open spec fn rank(v: JsonValue) -> int {
    match v {
        JsonValue::Null => 7,
        JsonValue::Array(_) => 6,
        JsonValue::Object(_) => 5,
        JsonValue::String(_) => 4,
        JsonValue::Number(_) => 3,
        JsonValue::Bool(true) => 2,
        JsonValue::Bool(false) => 1,
    }
}

/// -1, 0 or 1 as `d` is below, at or above zero.
pub open spec fn sign(d: int) -> int {
    if d < 0 {
        -1
    } else if d > 0 {
        1
    } else {
        0
    }
}

/// The order of two texts from the byte `i` on, given that they agree
/// before: the first byte in which they differ decides, and where there is
/// none, the shorter text comes first.
pub open spec fn lex_from(a: Seq<u8>, b: Seq<u8>, i: int) -> int
    decreases a.len() - i,
{
    if i < 0 || i >= a.len() {
        if 0 <= i < b.len() {
            -1
        } else {
            0
        }
    } else if i >= b.len() {
        1
    } else if a[i] != b[i] {
        sign(a[i] - b[i])
    } else {
        lex_from(a, b, i + 1)
    }
}

/// The order of two texts byte by byte: -1 where `a` comes first, 1 where
/// `b` does, 0 where they are the same.
pub open spec fn lex(a: Seq<u8>, b: Seq<u8>) -> int {
    lex_from(a, b, 0)
}

/// The order of two values: -1 where `a` comes first, 1 where `b` does, 0
/// where neither does.
///
/// Values of different types are ordered by the rank of their types.
/// Numbers are ordered as binary64, strings byte by byte in UTF-8, arrays
/// item by item, objects member by member in stored order, each member by
/// its name and then its value; where all items or members of the shorter
/// one are matched, the shorter one comes first.
pub open spec fn order(a: JsonValue, b: JsonValue) -> int
    decreases a, 0int,
{
    if rank(a) != rank(b) {
        sign(rank(a) - rank(b))
    } else {
        match (a, b) {
            (JsonValue::Number(x), JsonValue::Number(y)) => sign(number_key(x) - number_key(y)),
            (JsonValue::String(x), JsonValue::String(y)) => lex(encode_utf8(x), encode_utf8(y)),
            (JsonValue::Array(xs), JsonValue::Array(ys)) => items_order(xs, ys, 0),
            (JsonValue::Object(xs), JsonValue::Object(ys)) => members_order(xs, ys, 0),
            _ => 0,
        }
    }
}

/// The order of two arrays from the item `i` on, given that the items
/// before do not decide.
pub open spec fn items_order(xs: Seq<JsonValue>, ys: Seq<JsonValue>, i: int) -> int
    decreases xs, xs.len() - i,
{
    if i < 0 || i >= xs.len() || i >= ys.len() {
        sign(xs.len() - ys.len())
    } else if order(xs[i], ys[i]) != 0 {
        order(xs[i], ys[i])
    } else {
        items_order(xs, ys, i + 1)
    }
}

/// The order of two objects from the member `i` on, given that the members
/// before do not decide.
pub open spec fn members_order(
    xs: Seq<(Seq<char>, JsonValue)>,
    ys: Seq<(Seq<char>, JsonValue)>,
    i: int,
) -> int
    decreases xs, xs.len() - i,
{
    if i < 0 || i >= xs.len() || i >= ys.len() {
        sign(xs.len() - ys.len())
    } else if lex(encode_utf8(xs[i].0), encode_utf8(ys[i].0)) != 0 {
        lex(encode_utf8(xs[i].0), encode_utf8(ys[i].0))
    } else if order(xs[i].1, ys[i].1) != 0 {
        order(xs[i].1, ys[i].1)
    } else {
        members_order(xs, ys, i + 1)
    }
}

/// The projection of a string: the rank of strings, the text, and a zero
/// byte that ends it.
pub open spec fn text_projection(s: Seq<char>) -> Seq<u8> {
    seq![4u8] + encode_utf8(s) + seq![0u8]
}

/// The projection of a value onto bytes.
///
/// It begins with the rank of the type of the value. Behind it stand, for a
/// number, the eight bytes of its key; for a string, the text and a zero
/// byte; for an array, the projections of the items and a zero byte; for an
/// object, for each member the projection of its name and of its value, and
/// a zero byte.
pub open spec fn projection(v: JsonValue) -> Seq<u8>
    decreases v, 0int,
{
    match v {
        JsonValue::Null | JsonValue::Bool(_) => seq![rank(v) as u8],
        JsonValue::Number(n) => seq![3u8] + long_bytes(number_key(n)),
        JsonValue::String(s) => text_projection(s),
        JsonValue::Array(items) => seq![6u8] + items_projection(items, 0),
        JsonValue::Object(members) => seq![5u8] + members_projection(members, 0),
    }
}

/// The projections of the items from `i` on, and the zero byte that ends
/// the array.
pub open spec fn items_projection(items: Seq<JsonValue>, i: int) -> Seq<u8>
    decreases items, items.len() - i,
{
    if 0 <= i < items.len() {
        projection(items[i]) + items_projection(items, i + 1)
    } else {
        seq![0u8]
    }
}

/// The projections of the members from `i` on, and the zero byte that ends
/// the object.
pub open spec fn members_projection(members: Seq<(Seq<char>, JsonValue)>, i: int) -> Seq<u8>
    decreases members, members.len() - i,
{
    if 0 <= i < members.len() {
        text_projection(members[i].0) + projection(members[i].1) + members_projection(
            members,
            i + 1,
        )
    } else {
        seq![0u8]
    }
}

/// The order of two texts byte by byte.
pub fn lex_sign(a: &[u8], b: &[u8]) -> (r: i8)
    ensures
        r == lex(a@, b@),
        -1 <= r <= 1,
{
    let mut i: usize = 0;
    while i < a.len() && i < b.len()
        invariant
            0 <= i <= a.len(),
            i <= b.len(),
            lex_from(a@, b@, i as int) == lex(a@, b@),
        decreases a.len() - i,
    {
        if a[i] < b[i] {
            return -1;
        }
        if a[i] > b[i] {
            return 1;
        }
        i += 1;
    }
    if i < b.len() {
        -1
    } else if i < a.len() {
        1
    } else {
        0
    }
}

/// The rank of the type of a value.
fn rank_of(v: &Value) -> (r: u8)
    ensures
        r == rank(v@),
{
    match v {
        Value::Null => 7,
        Value::Array(_) => 6,
        Value::Object(_) => 5,
        Value::String(_) => 4,
        Value::Number(_) => 3,
        Value::Bool(true) => 2,
        Value::Bool(false) => 1,
    }
}

impl Value {
    /// The order of this value and another: -1 where this one comes first,
    /// 1 where the other does, 0 where neither does.
    pub fn order_sign(&self, other: &Value) -> (r: i8)
        ensures
            r == order(self@, other@),
            -1 <= r <= 1,
        decreases self,
    {
        let ra = rank_of(self);
        let rb = rank_of(other);
        if ra < rb {
            return -1;
        }
        if ra > rb {
            return 1;
        }
        match (self, other) {
            (Value::Number(x), Value::Number(y)) => {
                let kx = x.key();
                let ky = y.key();
                if kx < ky {
                    -1
                } else if kx > ky {
                    1
                } else {
                    0
                }
            },
            (Value::String(x), Value::String(y)) => lex_sign(
                x.as_str().as_bytes(),
                y.as_str().as_bytes(),
            ),
            (Value::Array(xs), Value::Array(ys)) => {
                proof {
                    lemma_array_view(*self);
                    lemma_array_view(*other);
                }
                let ghost vx = self@->Array_0;
                let ghost vy = other@->Array_0;
                let mut i: usize = 0;
                while i < xs.len() && i < ys.len()
                    invariant
                        *self is Array,
                        self->Array_0 == *xs,
                        0 <= i <= xs.len(),
                        i <= ys.len(),
                        vx.len() == xs.len(),
                        vy.len() == ys.len(),
                        forall|k: int| 0 <= k < xs.len() ==> #[trigger] vx[k] == xs[k]@,
                        forall|k: int| 0 <= k < ys.len() ==> #[trigger] vy[k] == ys[k]@,
                        items_order(vx, vy, i as int) == items_order(vx, vy, 0),
                        order(self@, other@) == items_order(vx, vy, 0),
                    decreases xs.len() - i,
                {
                    proof {
                        axiom_vec_index_decreases(*xs, i as int);
                    }
                    let c = xs[i].order_sign(&ys[i]);
                    assert(c == order(vx[i as int], vy[i as int]));
                    if c != 0 {
                        return c;
                    }
                    i += 1;
                }
                if xs.len() < ys.len() {
                    -1
                } else if xs.len() > ys.len() {
                    1
                } else {
                    0
                }
            },
            (Value::Object(xs), Value::Object(ys)) => {
                proof {
                    lemma_object_view(*self);
                    lemma_object_view(*other);
                }
                let ghost vx = self@->Object_0;
                let ghost vy = other@->Object_0;
                let mut i: usize = 0;
                while i < xs.len() && i < ys.len()
                    invariant
                        *self is Object,
                        self->Object_0 == *xs,
                        0 <= i <= xs.len(),
                        i <= ys.len(),
                        vx.len() == xs.len(),
                        vy.len() == ys.len(),
                        forall|k: int|
                            0 <= k < xs.len() ==> #[trigger] vx[k] == (xs[k].0@, xs[k].1@),
                        forall|k: int|
                            0 <= k < ys.len() ==> #[trigger] vy[k] == (ys[k].0@, ys[k].1@),
                        members_order(vx, vy, i as int) == members_order(vx, vy, 0),
                        order(self@, other@) == members_order(vx, vy, 0),
                    decreases xs.len() - i,
                {
                    proof {
                        axiom_vec_index_decreases(*xs, i as int);
                    }
                    assert(vx[i as int] == (xs[i as int].0@, xs[i as int].1@));
                    assert(vy[i as int] == (ys[i as int].0@, ys[i as int].1@));
                    let c = lex_sign(xs[i].0.as_str().as_bytes(), ys[i].0.as_str().as_bytes());
                    if c != 0 {
                        return c;
                    }
                    let c = xs[i].1.order_sign(&ys[i].1);
                    if c != 0 {
                        return c;
                    }
                    i += 1;
                }
                if xs.len() < ys.len() {
                    -1
                } else if xs.len() > ys.len() {
                    1
                } else {
                    0
                }
            },
            _ => 0,
        }
    }

    /// Appends the projection of the value onto bytes.
    pub fn write_projection(&self, out: &mut Vec<u8>)
        ensures
            final(out)@ == old(out)@ + projection(self@),
        decreases self,
    {
        match self {
            Value::Null | Value::Bool(_) => {
                out.push(rank_of(self));
                assert(out@ =~= old(out)@ + projection(self@));
            },
            Value::Number(n) => {
                out.push(3);
                push_long(out, n.key());
                assert(out@ =~= old(out)@ + projection(self@));
            },
            Value::String(s) => {
                out.push(4);
                push_bytes(out, s.as_str().as_bytes());
                out.push(0);
                assert(out@ =~= old(out)@ + projection(self@));
            },
            Value::Array(items) => {
                proof {
                    lemma_array_view(*self);
                }
                let ghost view = self@->Array_0;
                let n = items.len();
                out.push(6);
                let mut i: usize = 0;
                let ghost start = out@;
                while i < n
                    invariant
                        *self is Array,
                        self->Array_0 == *items,
                        n == items.len(),
                        0 <= i <= n,
                        view.len() == n,
                        forall|k: int| 0 <= k < n ==> #[trigger] view[k] == items[k]@,
                        out@ + items_projection(view, i as int) == start + items_projection(
                            view,
                            0,
                        ),
                    decreases n - i,
                {
                    proof {
                        axiom_vec_index_decreases(*items, i as int);
                    }
                    let ghost before = out@;
                    items[i].write_projection(out);
                    proof {
                        assert(items_projection(view, i as int) == projection(view[i as int])
                            + items_projection(view, i + 1));
                        assert(out@ + items_projection(view, i + 1) =~= before + items_projection(
                            view,
                            i as int,
                        ));
                    }
                    i += 1;
                }
                out.push(0);
                proof {
                    assert(items_projection(view, n as int) == seq![0u8]);
                    assert(out@ =~= start + items_projection(view, 0));
                    assert(out@ =~= old(out)@ + projection(self@));
                }
            },
            Value::Object(members) => {
                proof {
                    lemma_object_view(*self);
                }
                let ghost view = self@->Object_0;
                let n = members.len();
                out.push(5);
                let mut i: usize = 0;
                let ghost start = out@;
                while i < n
                    invariant
                        *self is Object,
                        self->Object_0 == *members,
                        n == members.len(),
                        0 <= i <= n,
                        view.len() == n,
                        forall|k: int|
                            0 <= k < n ==> #[trigger] view[k] == (members[k].0@, members[k].1@),
                        out@ + members_projection(view, i as int) == start + members_projection(
                            view,
                            0,
                        ),
                    decreases n - i,
                {
                    proof {
                        axiom_vec_index_decreases(*members, i as int);
                    }
                    let ghost before = out@;
                    assert(view[i as int] == (members[i as int].0@, members[i as int].1@));
                    out.push(4);
                    push_bytes(out, members[i].0.as_str().as_bytes());
                    out.push(0);
                    assert(out@ =~= before + text_projection(view[i as int].0));
                    let ghost middle = out@;
                    members[i].1.write_projection(out);
                    proof {
                        assert(members_projection(view, i as int) == text_projection(
                            view[i as int].0,
                        ) + projection(view[i as int].1) + members_projection(view, i + 1));
                        assert(out@ + members_projection(view, i + 1) =~= before
                            + members_projection(view, i as int));
                    }
                    i += 1;
                }
                out.push(0);
                proof {
                    assert(members_projection(view, n as int) == seq![0u8]);
                    assert(out@ =~= start + members_projection(view, 0));
                    assert(out@ =~= old(out)@ + projection(self@));
                }
            },
        }
    }
}

/// Appends the projection of the value that the buffer holds. Where the
/// buffer holds no value, `out` stays as it was.
pub fn convert_to_comparable(buf: &[u8], out: &mut Vec<u8>)
    ensures
        final(out)@ == match decoded(buf@) {
            Some(v) => old(out)@ + projection(v),
            None => old(out)@,
        },
{
    match from_slice(buf) {
        Ok(v) => v.write_projection(out),
        Err(_) => {},
    }
}

} // verus!
