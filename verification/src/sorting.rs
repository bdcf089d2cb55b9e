//! The projection of values onto bytes keeps their order.
use crate::format::{long_bytes, word_bytes, JsonValue};
use crate::number::{magnitude_bits, number_key, NumberValue, TWO_63};
use crate::order::{
    items_order, items_projection, lex, lex_from, members_order, members_projection, order,
    projection, rank, sign, text_projection,
};
use vstd::prelude::*;
use vstd::utf8::encode_utf8;

verus! {

/// No byte of the text is zero.
pub open spec fn has_no_zero(s: Seq<u8>) -> bool {
    forall|i: int| 0 <= i < s.len() ==> #[trigger] s[i] != 0
}

/// The value can be sorted by its projection: its integers fit in 64 bits,
/// and no string and no name in it holds the character of code zero.
pub open spec fn is_sortable(v: JsonValue) -> bool
    decreases v,
{
    match v {
        JsonValue::Null | JsonValue::Bool(_) => true,
        JsonValue::Number(NumberValue::Integer(n)) => i64::MIN <= n <= u64::MAX,
        JsonValue::Number(NumberValue::Float(_)) => true,
        JsonValue::String(s) => has_no_zero(encode_utf8(s)),
        JsonValue::Array(items) => {
            forall|i: int| 0 <= i < items.len() ==> is_sortable(#[trigger] items[i])
        },
        JsonValue::Object(members) => {
            forall|i: int|
                0 <= i < members.len() ==> has_no_zero(encode_utf8((#[trigger] members[i]).0))
                    && is_sortable(members[i].1)
        },
    }
}

/// The two texts agree before the byte `i`, and there `a` has the smaller
/// byte.
pub open spec fn precedes(a: Seq<u8>, b: Seq<u8>, i: int) -> bool {
    &&& 0 <= i < a.len()
    &&& i < b.len()
    &&& a.subrange(0, i) == b.subrange(0, i)
    &&& a[i] < b[i]
}

/// What the sign `c` says of two texts: that they are the same, that `a`
/// comes first at the byte `i`, or that `b` does.
pub open spec fn tells(c: int, a: Seq<u8>, b: Seq<u8>, i: int) -> bool {
    &&& -1 <= c <= 1
    &&& c == 0 ==> a == b
    &&& c == -1 ==> precedes(a, b, i)
    &&& c == 1 ==> precedes(b, a, i)
}

/// An item of an array that can be sorted can be sorted.
pub proof fn lemma_sortable_item(items: Seq<JsonValue>, k: int)
    requires
        is_sortable(JsonValue::Array(items)),
        0 <= k < items.len(),
    ensures
        is_sortable(items[k]),
{
    assert(JsonValue::Array(items)->Array_0 == items);
}

/// A member of an object that can be sorted has a name without a zero byte
/// and a value that can be sorted.
pub proof fn lemma_sortable_member(members: Seq<(Seq<char>, JsonValue)>, k: int)
    requires
        is_sortable(JsonValue::Object(members)),
        0 <= k < members.len(),
    ensures
        is_sortable(members[k].1),
        has_no_zero(encode_utf8(members[k].0)),
{
    assert(JsonValue::Object(members)->Object_0 == members);
}

/// A text is in order with itself.
pub proof fn lemma_lex_same(a: Seq<u8>, i: int)
    requires
        0 <= i,
    ensures
        lex_from(a, a, i) == 0,
    decreases a.len() - i,
{
    if i < a.len() {
        lemma_lex_same(a, i + 1);
    }
}

/// Where `a` comes first at the byte `i`, the order from any byte up to
/// `i` on says so.
pub proof fn lemma_lex_until(a: Seq<u8>, b: Seq<u8>, k: int, i: int)
    requires
        0 <= k <= i,
        precedes(a, b, i),
    ensures
        lex_from(a, b, k) == -1,
        lex_from(b, a, k) == 1,
    decreases i - k,
{
    if k < i {
        assert(a.subrange(0, i)[k] == b.subrange(0, i)[k]);
        lemma_lex_until(a, b, k + 1, i);
    }
}

/// What tells the order of two texts is their order byte by byte.
pub proof fn lemma_lex_tells(c: int, a: Seq<u8>, b: Seq<u8>, i: int)
    requires
        tells(c, a, b, i),
    ensures
        lex(a, b) == c,
{
    if c == 0 {
        lemma_lex_same(a, 0);
    } else if c == -1 {
        lemma_lex_until(a, b, 0, i);
    } else {
        lemma_lex_until(b, a, 0, i);
    }
}

/// What comes behind does not change which text comes first.
pub proof fn lemma_extend(a: Seq<u8>, b: Seq<u8>, i: int, s: Seq<u8>, t: Seq<u8>)
    requires
        precedes(a, b, i),
    ensures
        precedes(a + s, b + t, i),
{
    assert((a + s).subrange(0, i) =~= a.subrange(0, i));
    assert((b + t).subrange(0, i) =~= b.subrange(0, i));
}

/// The same text in front does not change which text comes first.
pub proof fn lemma_prepend(front: Seq<u8>, a: Seq<u8>, b: Seq<u8>, i: int)
    requires
        precedes(a, b, i),
    ensures
        precedes(front + a, front + b, front.len() + i),
{
    let n = front.len() as int;
    assert forall|j: int| 0 <= j < n + i implies (front + a)[j] == (front + b)[j] by {
        if j >= n {
            assert(a.subrange(0, i)[j - n] == b.subrange(0, i)[j - n]);
        }
    }
    assert((front + a).subrange(0, n + i) =~= (front + b).subrange(0, n + i));
}

/// The bytes of the smaller of two words come first.
pub proof fn lemma_word_order(v: int, w: int) -> (i: int)
    requires
        0 <= v < w < 0x1_0000_0000,
    ensures
        precedes(word_bytes(v), word_bytes(w), i),
{
    let a = word_bytes(v);
    let b = word_bytes(w);
    crate::layout::lemma_word(v);
    crate::layout::lemma_word(w);
    assert(v == crate::format::word_at(a, 0));
    assert(w == crate::format::word_at(b, 0));
    let i = if a[0] != b[0] {
        0int
    } else if a[1] != b[1] {
        1int
    } else if a[2] != b[2] {
        2int
    } else {
        3int
    };
    assert(a.subrange(0, i) =~= b.subrange(0, i));
    i
}

/// The bytes of the smaller of two long words come first.
pub proof fn lemma_long_order(v: int, w: int) -> (i: int)
    requires
        0 <= v < w < 0x1_0000_0000_0000_0000,
    ensures
        precedes(long_bytes(v), long_bytes(w), i),
{
    let unit = 0x1_0000_0000int;
    if v / unit == w / unit {
        let i = lemma_word_order(v % unit, w % unit);
        lemma_prepend(word_bytes(v / unit), word_bytes(v % unit), word_bytes(w % unit), i);
        4 + i
    } else {
        let i = lemma_word_order(v / unit, w / unit);
        lemma_extend(
            word_bytes(v / unit),
            word_bytes(w / unit),
            i,
            word_bytes(v % unit),
            word_bytes(w % unit),
        );
        i
    }
}

/// The key of a number that can be sorted fits in 64 bits.
pub proof fn lemma_key_fits(n: NumberValue)
    requires
        is_sortable(JsonValue::Number(n)),
    ensures
        0 <= number_key(n) < 0x1_0000_0000_0000_0000,
{
    match n {
        NumberValue::Integer(v) => {
            if v < 0 {
                lemma_magnitude_fits(-v);
            } else {
                lemma_magnitude_fits(v);
            }
        },
        NumberValue::Float(_) => {},
    }
}

/// The bits of the binary64 nearest to an integer of 64 bits lie below the
/// sign bit.
pub proof fn lemma_magnitude_fits(m: int)
    requires
        0 <= m < 0x1_0000_0000_0000_0000,
    ensures
        0 <= magnitude_bits(m) < TWO_63,
{
    if m == 0 {
    } else if m < crate::number::TWO_53 {
        lemma_normal_fits(m, 0);
    } else {
        assert(crate::number::pow2_of(1) == 2) by {
            reveal_with_fuel(crate::number::pow2_of, 2);
        }
        lemma_rounded_fits(m, 1, 2);
    }
}

proof fn lemma_normal_fits(m: int, e: int)
    requires
        0 < m < crate::number::TWO_53,
        -53 <= e <= 0,
        m >= crate::number::pow2_of(-e),
    ensures
        0 <= crate::number::normal_bits(m, e) < TWO_63,
    decreases crate::number::TWO_53 - m,
{
    if m < crate::number::TWO_52 {
        crate::number::lemma_pow2_facts(-e);
        lemma_normal_fits(2 * m, e - 1);
    }
}

proof fn lemma_rounded_fits(m: int, s: int, unit: int)
    requires
        1 <= s <= 11,
        unit == crate::number::pow2_of(s),
        crate::number::TWO_52 * unit <= m < 0x1_0000_0000_0000_0000,
    ensures
        0 <= crate::number::rounded_bits(m, s, unit) < TWO_63,
    decreases 11 - s,
{
    crate::number::lemma_pow2_facts(s);
    assert(unit >= 2 && unit <= 2048);
    if m / unit >= crate::number::TWO_53 && s < 11 {
        assert(m >= crate::number::TWO_53 * unit) by (nonlinear_arith)
            requires
                m / unit >= crate::number::TWO_53,
                unit > 0,
        ;
        lemma_rounded_fits(m, s + 1, 2 * unit);
        assert(crate::number::rounded_bits(m, s, unit) == crate::number::rounded_bits(
            m,
            s + 1,
            2 * unit,
        ));
    } else {
        assert(m / unit >= crate::number::TWO_52) by (nonlinear_arith)
            requires
                m >= crate::number::TWO_52 * unit,
                unit > 0,
        ;
        if s == 11 {
            assert(m / 2048 < crate::number::TWO_53);
        }
        let kept = m / unit;
        let cut = m % unit;
        let up: int = if 2 * cut > unit || (2 * cut == unit && kept % 2 == 1) {
            1
        } else {
            0
        };
        assert(crate::number::rounded_bits(m, s, unit) == (1075 + s) * crate::number::TWO_52 + (
            kept + up - crate::number::TWO_52));
    }
}

/// The projection of a value begins with the rank of its type, which is
/// not zero.
pub proof fn lemma_head(v: JsonValue)
    ensures
        projection(v).len() >= 1,
        projection(v)[0] == rank(v),
        1 <= rank(v) <= 7,
{
}

/// What the order of two texts without a zero byte, which agree before the
/// byte `k`, tells of the texts with a zero byte behind each.
pub proof fn lemma_text_order(x: Seq<u8>, y: Seq<u8>, k: int) -> (i: int)
    requires
        has_no_zero(x),
        has_no_zero(y),
        0 <= k <= x.len(),
        k <= y.len(),
        x.subrange(0, k) == y.subrange(0, k),
    ensures
        tells(lex_from(x, y, k), x + seq![0u8], y + seq![0u8], i),
    decreases x.len() - k,
{
    let a = x + seq![0u8];
    let b = y + seq![0u8];
    if k >= x.len() {
        if k < y.len() {
            assert(a.subrange(0, k) =~= x.subrange(0, k));
            assert(b.subrange(0, k) =~= y.subrange(0, k));
            assert(b[k] == y[k]);
            k
        } else {
            assert(x =~= x.subrange(0, k));
            assert(y =~= y.subrange(0, k));
            0
        }
    } else if k >= y.len() {
        assert(a.subrange(0, k) =~= x.subrange(0, k));
        assert(b.subrange(0, k) =~= y.subrange(0, k));
        assert(a[k] == x[k]);
        k
    } else if x[k] != y[k] {
        assert(a.subrange(0, k) =~= x.subrange(0, k));
        assert(b.subrange(0, k) =~= y.subrange(0, k));
        assert(a[k] == x[k]);
        assert(b[k] == y[k]);
        k
    } else {
        assert forall|j: int| 0 <= j < k + 1 implies x[j] == y[j] by {
            if j < k {
                assert(x.subrange(0, k)[j] == x[j]);
                assert(y.subrange(0, k)[j] == y[j]);
            }
        }
        assert(x.subrange(0, k + 1) =~= y.subrange(0, k + 1));
        lemma_text_order(x, y, k + 1)
    }
}

/// What the order of two names without a zero byte tells of their
/// projections.
pub proof fn lemma_name_order(x: Seq<char>, y: Seq<char>) -> (i: int)
    requires
        has_no_zero(encode_utf8(x)),
        has_no_zero(encode_utf8(y)),
    ensures
        tells(lex(encode_utf8(x), encode_utf8(y)), text_projection(x), text_projection(y), i),
{
    let a = encode_utf8(x);
    let b = encode_utf8(y);
    let zero = seq![0u8];
    let four = seq![4u8];
    assert(a.subrange(0, 0) =~= b.subrange(0, 0));
    let j = lemma_text_order(a, b, 0);
    let c = lex(a, b);
    assert(text_projection(x) =~= four + (a + zero));
    assert(text_projection(y) =~= four + (b + zero));
    if c == -1 {
        lemma_prepend(four, a + zero, b + zero, j);
    } else if c == 1 {
        lemma_prepend(four, b + zero, a + zero, j);
    }
    1 + j
}

/// What the order of two values tells of their projections.
pub proof fn lemma_order(a: JsonValue, b: JsonValue) -> (i: int)
    requires
        is_sortable(a),
        is_sortable(b),
    ensures
        tells(order(a, b), projection(a), projection(b), i),
    decreases a, 0int,
{
    lemma_head(a);
    lemma_head(b);
    let pa = projection(a);
    let pb = projection(b);
    if rank(a) != rank(b) {
        assert(pa.subrange(0, 0) =~= pb.subrange(0, 0));
        return 0;
    }
    match (a, b) {
        (JsonValue::Number(x), JsonValue::Number(y)) => {
            lemma_key_fits(x);
            lemma_key_fits(y);
            let kx = number_key(x);
            let ky = number_key(y);
            if kx < ky {
                let j = lemma_long_order(kx, ky);
                lemma_prepend(seq![3u8], long_bytes(kx), long_bytes(ky), j);
                1 + j
            } else if kx > ky {
                let j = lemma_long_order(ky, kx);
                lemma_prepend(seq![3u8], long_bytes(ky), long_bytes(kx), j);
                1 + j
            } else {
                0
            }
        },
        (JsonValue::String(x), JsonValue::String(y)) => lemma_name_order(x, y),
        (JsonValue::Array(xs), JsonValue::Array(ys)) => {
            let j = lemma_items(xs, ys, 0);
            let c = items_order(xs, ys, 0);
            if c == -1 {
                lemma_prepend(seq![6u8], items_projection(xs, 0), items_projection(ys, 0), j);
            } else if c == 1 {
                lemma_prepend(seq![6u8], items_projection(ys, 0), items_projection(xs, 0), j);
            }
            1 + j
        },
        (JsonValue::Object(xs), JsonValue::Object(ys)) => {
            let j = lemma_members(xs, ys, 0);
            let c = members_order(xs, ys, 0);
            if c == -1 {
                lemma_prepend(
                    seq![5u8],
                    members_projection(xs, 0),
                    members_projection(ys, 0),
                    j,
                );
            } else if c == 1 {
                lemma_prepend(
                    seq![5u8],
                    members_projection(ys, 0),
                    members_projection(xs, 0),
                    j,
                );
            }
            1 + j
        },
        _ => 0,
    }
}

/// What `c` tells of `a` and `b` it tells of the same texts behind a
/// common front and with anything behind them, given that `a` and `b` are
/// the same where `c` is zero and so are the tails.
proof fn lemma_tells_first(
    c: int,
    a: Seq<u8>,
    b: Seq<u8>,
    i: int,
    s: Seq<u8>,
    t: Seq<u8>,
)
    requires
        tells(c, a, b, i),
        c != 0,
    ensures
        tells(c, a + s, b + t, i),
{
    if c == -1 {
        lemma_extend(a, b, i, s, t);
    } else {
        lemma_extend(b, a, i, t, s);
    }
}

/// What `c` tells of two tails it tells of the tails behind a common
/// front.
proof fn lemma_tells_behind(c: int, front: Seq<u8>, s: Seq<u8>, t: Seq<u8>, i: int)
    requires
        tells(c, s, t, i),
    ensures
        tells(c, front + s, front + t, front.len() + i),
{
    if c == -1 {
        lemma_prepend(front, s, t, i);
    } else if c == 1 {
        lemma_prepend(front, t, s, i);
    }
}

/// What the order of two arrays from the item `k` on tells of the
/// projections of their items from `k` on.
pub proof fn lemma_items(xs: Seq<JsonValue>, ys: Seq<JsonValue>, k: int) -> (i: int)
    requires
        is_sortable(JsonValue::Array(xs)),
        is_sortable(JsonValue::Array(ys)),
        0 <= k <= xs.len(),
        k <= ys.len(),
    ensures
        tells(items_order(xs, ys, k), items_projection(xs, k), items_projection(ys, k), i),
    decreases xs, xs.len() - k,
{
    let px = items_projection(xs, k);
    let py = items_projection(ys, k);
    if k >= xs.len() || k >= ys.len() {
        if k < ys.len() {
            lemma_head(ys[k]);
            assert(py == projection(ys[k]) + items_projection(ys, k + 1));
            assert(px.subrange(0, 0) =~= py.subrange(0, 0));
        } else if k < xs.len() {
            lemma_head(xs[k]);
            assert(px == projection(xs[k]) + items_projection(xs, k + 1));
            assert(px.subrange(0, 0) =~= py.subrange(0, 0));
        }
        0
    } else {
        lemma_sortable_item(xs, k);
        lemma_sortable_item(ys, k);
        assert(px == projection(xs[k]) + items_projection(xs, k + 1));
        assert(py == projection(ys[k]) + items_projection(ys, k + 1));
        let c = order(xs[k], ys[k]);
        let j = lemma_order(xs[k], ys[k]);
        if c != 0 {
            lemma_tells_first(
                c,
                projection(xs[k]),
                projection(ys[k]),
                j,
                items_projection(xs, k + 1),
                items_projection(ys, k + 1),
            );
            j
        } else {
            let r = lemma_items(xs, ys, k + 1);
            lemma_tells_behind(
                items_order(xs, ys, k + 1),
                projection(xs[k]),
                items_projection(xs, k + 1),
                items_projection(ys, k + 1),
                r,
            );
            projection(xs[k]).len() + r
        }
    }
}

/// What the order of two objects from the member `k` on tells of the
/// projections of their members from `k` on.
pub proof fn lemma_members(
    xs: Seq<(Seq<char>, JsonValue)>,
    ys: Seq<(Seq<char>, JsonValue)>,
    k: int,
) -> (i: int)
    requires
        is_sortable(JsonValue::Object(xs)),
        is_sortable(JsonValue::Object(ys)),
        0 <= k <= xs.len(),
        k <= ys.len(),
    ensures
        tells(members_order(xs, ys, k), members_projection(xs, k), members_projection(ys, k), i),
    decreases xs, xs.len() - k,
{
    let px = members_projection(xs, k);
    let py = members_projection(ys, k);
    if k >= xs.len() || k >= ys.len() {
        if k < ys.len() {
            assert(py == text_projection(ys[k].0) + projection(ys[k].1) + members_projection(
                ys,
                k + 1,
            ));
            assert(py[0] == 4);
            assert(px.subrange(0, 0) =~= py.subrange(0, 0));
        } else if k < xs.len() {
            assert(px == text_projection(xs[k].0) + projection(xs[k].1) + members_projection(
                xs,
                k + 1,
            ));
            assert(px[0] == 4);
            assert(px.subrange(0, 0) =~= py.subrange(0, 0));
        }
        0
    } else {
        lemma_sortable_member(xs, k);
        lemma_sortable_member(ys, k);
        let nx = text_projection(xs[k].0);
        let ny = text_projection(ys[k].0);
        let vx = projection(xs[k].1);
        let vy = projection(ys[k].1);
        let tx = members_projection(xs, k + 1);
        let ty = members_projection(ys, k + 1);
        assert(px =~= nx + (vx + tx));
        assert(py =~= ny + (vy + ty));
        let c = lex(encode_utf8(xs[k].0), encode_utf8(ys[k].0));
        let j = lemma_name_order(xs[k].0, ys[k].0);
        if c != 0 {
            lemma_tells_first(c, nx, ny, j, vx + tx, vy + ty);
            j
        } else {
            let d = order(xs[k].1, ys[k].1);
            let m = lemma_order(xs[k].1, ys[k].1);
            if d != 0 {
                lemma_tells_first(d, vx, vy, m, tx, ty);
                lemma_tells_behind(d, nx, vx + tx, vy + ty, m);
                nx.len() + m
            } else {
                let r = lemma_members(xs, ys, k + 1);
                lemma_tells_behind(members_order(xs, ys, k + 1), vx, tx, ty, r);
                lemma_tells_behind(
                    members_order(xs, ys, k + 1),
                    nx,
                    vx + tx,
                    vy + ty,
                    vx.len() + r,
                );
                nx.len() + vx.len() + r
            }
        }
    }
}

/// The projections of two values are in the order of the values: taken as
/// texts and ordered byte by byte, the shorter first where one is the
/// beginning of the other, they come in the order in which the values do,
/// and they are the same exactly where neither value comes first.
pub proof fn law_projection_keeps_order(a: JsonValue, b: JsonValue)
    requires
        is_sortable(a),
        is_sortable(b),
    ensures
        lex(projection(a), projection(b)) == order(a, b),
        projection(a) == projection(b) <==> order(a, b) == 0,
{
    let i = lemma_order(a, b);
    lemma_lex_tells(order(a, b), projection(a), projection(b), i);
}

/// Turned around, two texts are in the opposite order.
pub proof fn lemma_lex_turned(a: Seq<u8>, b: Seq<u8>, i: int)
    requires
        0 <= i,
    ensures
        lex_from(a, b, i) == -lex_from(b, a, i),
    decreases a.len() - i,
{
    if i < a.len() && i < b.len() && a[i] == b[i] {
        lemma_lex_turned(a, b, i + 1);
    }
}

/// The order of texts goes on from text to text: where `a` does not come
/// behind `b`, nor `b` behind `c`, `a` does not come behind `c`, and `a`
/// comes before `c` where it comes before `b` or `b` before `c`.
pub proof fn lemma_lex_goes_on(a: Seq<u8>, b: Seq<u8>, c: Seq<u8>, i: int)
    requires
        0 <= i,
        lex_from(a, b, i) <= 0,
        lex_from(b, c, i) <= 0,
    ensures
        lex_from(a, c, i) <= 0,
        lex_from(a, b, i) < 0 || lex_from(b, c, i) < 0 ==> lex_from(a, c, i) < 0,
    decreases a.len() - i,
{
    if i < a.len() && i < b.len() && i < c.len() && a[i] == b[i] && b[i] == c[i] {
        lemma_lex_goes_on(a, b, c, i + 1);
    }
}

/// The order of values that can be sorted is a total order but for values
/// that are equal in it: a value is equal to itself, two values turned
/// around are in the opposite order, and the order goes on from value to
/// value.
pub proof fn law_order_is_total(a: JsonValue, b: JsonValue, c: JsonValue)
    requires
        is_sortable(a),
        is_sortable(b),
        is_sortable(c),
    ensures
        order(a, a) == 0,
        -1 <= order(a, b) <= 1,
        order(a, b) == -order(b, a),
        order(a, b) <= 0 && order(b, c) <= 0 ==> order(a, c) <= 0,
        order(a, b) <= 0 && order(b, c) <= 0 && (order(a, b) < 0 || order(b, c) < 0) ==> order(
            a,
            c,
        ) < 0,
{
    law_projection_keeps_order(a, a);
    law_projection_keeps_order(a, b);
    law_projection_keeps_order(b, a);
    law_projection_keeps_order(b, c);
    law_projection_keeps_order(a, c);
    let i = lemma_order(a, b);
    lemma_lex_turned(projection(a), projection(b), 0);
    if order(a, b) <= 0 && order(b, c) <= 0 {
        lemma_lex_goes_on(projection(a), projection(b), projection(c), 0);
    }
}

} // verus!
